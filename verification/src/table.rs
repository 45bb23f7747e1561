//! The two tables as mathematical sequences of rows, and what each
//! operation of the catalog makes of them.
//!
//! A table is the sequence of its rows in storage order. No two rows of a
//! table share an id.

use vstd::prelude::*;
use crate::codec::template_of;
use crate::pattern::{like_matches, search_pattern};
use crate::error::StoreError;
use crate::record::{RowView, Tag, TagView, Template, TemplateView};
use crate::text::{
    lemma_text_lt_irreflexive, lemma_text_lt_total, lemma_text_lt_transitive, text_lt,
};

verus! {

/// No two rows share an id.
pub open spec fn unique_ids(rows: Seq<RowView>) -> bool {
    forall|i: int, j: int| 0 <= i < j < rows.len() ==> rows[i].id != rows[j].id
}

/// Some row has the id `id`.
pub open spec fn has_id(rows: Seq<RowView>, id: Seq<char>) -> bool {
    exists|i: int| 0 <= i < rows.len() && rows[i].id == id
}

/// Row `i` is the first row with the id `id`.
pub open spec fn is_first_with_id(rows: Seq<RowView>, id: Seq<char>, i: int) -> bool {
    &&& 0 <= i < rows.len()
    &&& rows[i].id == id
    &&& forall|j: int| 0 <= j < i ==> rows[j].id != id
}

/// The row with the id `id`, if there is one.
pub open spec fn found(rows: Seq<RowView>, id: Seq<char>) -> Option<RowView> {
    if exists|i: int| is_first_with_id(rows, id, i) {
        Some(rows[choose|i: int| is_first_with_id(rows, id, i)])
    } else {
        None
    }
}

/// The table after insert-or-replace of `row`: the row takes the place of
/// the row with its id, or comes last where no row has its id.
pub open spec fn upserted(rows: Seq<RowView>, row: RowView) -> Seq<RowView> {
    if has_id(rows, row.id) {
        rows.map_values(
            |r: RowView|
                if r.id == row.id {
                    row
                } else {
                    r
                },
        )
    } else {
        rows.push(row)
    }
}

/// The table after insert-or-replace of each row of `batch`, in order.
pub open spec fn upserted_all(rows: Seq<RowView>, batch: Seq<RowView>) -> Seq<RowView>
    decreases batch.len(),
{
    if batch.len() == 0 {
        rows
    } else {
        upserted(upserted_all(rows, batch.drop_last()), batch.last())
    }
}

/// The table without the rows that have the id `id`; the others keep their
/// order.
pub open spec fn without_id(rows: Seq<RowView>, id: Seq<char>) -> Seq<RowView> {
    rows.filter(has_other_id(id))
}

/// The test that a row has another id than `id`.
pub open spec fn has_other_id(id: Seq<char>) -> spec_fn(RowView) -> bool {
    |r: RowView| r.id != id
}

/// A row with its favorite flag inverted and its update time set to `now`.
pub open spec fn flipped(r: RowView, now: i64) -> RowView {
    RowView { is_favorite: !r.is_favorite, updated_at: now, ..r }
}

/// The table after the favorite flag of the row with the id `id` was
/// inverted at time `now`.
pub open spec fn toggled(rows: Seq<RowView>, id: Seq<char>, now: i64) -> Seq<RowView> {
    rows.map_values(
        |r: RowView|
            if r.id == id {
                flipped(r, now)
            } else {
                r
            },
    )
}

/// The number of rows at the head of `sorted` that were updated at `at` or
/// later.
pub open spec fn recency_slot(sorted: Seq<RowView>, at: i64) -> int
    decreases sorted.len(),
{
    if sorted.len() == 0 || sorted[0].updated_at < at {
        0
    } else {
        1 + recency_slot(sorted.drop_first(), at)
    }
}

/// The rows of a table, most recently updated first. Rows with the same
/// update time keep their storage order.
pub open spec fn by_recency(rows: Seq<RowView>) -> Seq<RowView>
    decreases rows.len(),
{
    if rows.len() == 0 {
        rows
    } else {
        let sorted = by_recency(rows.drop_last());
        sorted.insert(recency_slot(sorted, rows.last().updated_at), rows.last())
    }
}

/// No row comes before a row that was updated later.
pub open spec fn recent_first(rows: Seq<RowView>) -> bool {
    forall|i: int, j: int| 0 <= i < j < rows.len() ==> rows[i].updated_at >= rows[j].updated_at
}

/// Whether a row is a hit for the keyword: its title or the stored text of
/// its sections matches the search pattern of the keyword.
pub open spec fn is_hit(r: RowView, keyword: Seq<char>) -> bool {
    like_matches(r.title, search_pattern(keyword)) || like_matches(
        r.sections,
        search_pattern(keyword),
    )
}

/// The hits for a keyword, most recently updated first.
pub open spec fn hits(rows: Seq<RowView>, keyword: Seq<char>) -> Seq<RowView> {
    by_recency(rows).filter(hit_for(keyword))
}

/// The test that a row is a hit for the keyword.
pub open spec fn hit_for(keyword: Seq<char>) -> spec_fn(RowView) -> bool {
    |r: RowView| is_hit(r, keyword)
}

/// Every row stands for a template.
pub open spec fn all_decode(rows: Seq<RowView>) -> bool {
    forall|i: int| 0 <= i < rows.len() ==> (#[trigger] template_of(rows[i])) is Some
}

/// The templates that the rows stand for, in the order of the rows.
pub open spec fn decoded(rows: Seq<RowView>) -> Seq<TemplateView> {
    rows.map_values(|r: RowView| template_of(r).unwrap())
}

/// The slot of a time stands behind every row that is at least as recent
/// and, where rows follow, before a row that is older.
pub proof fn lemma_recency_slot(sorted: Seq<RowView>, at: i64)
    ensures
        0 <= recency_slot(sorted, at) <= sorted.len(),
        forall|j: int| 0 <= j < recency_slot(sorted, at) ==> sorted[j].updated_at >= at,
        recency_slot(sorted, at) < sorted.len() ==> sorted[recency_slot(sorted, at)].updated_at
            < at,
    decreases sorted.len(),
{
    if sorted.len() == 0 || sorted[0].updated_at < at {
    } else {
        let rest = sorted.drop_first();
        lemma_recency_slot(rest, at);
        let p = recency_slot(rest, at);
        assert forall|j: int| 0 <= j < p + 1 implies sorted[j].updated_at >= at by {
            if j > 0 {
                assert(sorted[j] == rest[j - 1]);
            }
        }
        if p + 1 < sorted.len() {
            assert(sorted[p + 1] == rest[p]);
        }
    }
}

/// The listing by recency holds the rows of the table, each as often as
/// the table does, and no row in it comes before a row updated later.
pub proof fn lemma_by_recency(rows: Seq<RowView>)
    ensures
        by_recency(rows).len() == rows.len(),
        by_recency(rows).to_multiset() == rows.to_multiset(),
        recent_first(by_recency(rows)),
    decreases rows.len(),
{
    broadcast use {vstd::seq_lib::to_multiset_build, vstd::seq_lib::to_multiset_insert};

    if rows.len() == 0 {
    } else {
        let front = rows.drop_last();
        let last = rows.last();
        lemma_by_recency(front);
        let sorted = by_recency(front);
        lemma_recency_slot(sorted, last.updated_at);
        let p = recency_slot(sorted, last.updated_at);
        let out = sorted.insert(p, last);
        assert(rows =~= front.push(last));
        assert(out.to_multiset() == sorted.to_multiset().insert(last));
        assert(rows.to_multiset() == front.to_multiset().insert(last));
        assert forall|i: int, j: int| 0 <= i < j < out.len() implies out[i].updated_at
            >= out[j].updated_at by {
            if j < p {
                assert(out[i] == sorted[i] && out[j] == sorted[j]);
            } else if j == p {
                assert(out[i] == sorted[i]);
            } else if i < p {
                assert(out[i] == sorted[i] && out[j] == sorted[j - 1]);
            } else if i == p {
                assert(out[j] == sorted[j - 1]);
                assert(sorted[p].updated_at >= sorted[j - 1].updated_at || p == j - 1);
            } else {
                assert(out[i] == sorted[i - 1] && out[j] == sorted[j - 1]);
            }
        }
    }
}

/// A table in which no row has the id `id` is left as it is by its
/// removal.
pub proof fn lemma_without_absent(rows: Seq<RowView>, id: Seq<char>)
    requires
        !has_id(rows, id),
    ensures
        without_id(rows, id) == rows,
    decreases rows.len(),
{
    if rows.len() == 0 {
    } else {
        let front = rows.drop_last();
        assert forall|i: int| 0 <= i < front.len() implies front[i].id != id by {
            assert(rows[i] == front[i]);
        }
        lemma_without_absent(front, id);
        assert(rows[rows.len() - 1].id != id);
        assert(front.push(rows.last()) =~= rows);
        front.lemma_filter_push(rows.last(), has_other_id(id));
    }
}

/// Where row `i` has the id `id` and ids are unique, removing the id
/// removes row `i` and no other.
pub proof fn lemma_without_present(rows: Seq<RowView>, id: Seq<char>, i: int)
    requires
        unique_ids(rows),
        0 <= i < rows.len(),
        rows[i].id == id,
    ensures
        without_id(rows, id) == rows.remove(i),
    decreases rows.len(),
{
    let front = rows.drop_last();
    let last = rows.last();
    if i == rows.len() - 1 {
        assert forall|j: int| 0 <= j < front.len() implies front[j].id != id by {
            assert(rows[j] == front[j]);
        }
        lemma_without_absent(front, id);
        assert(front.push(last) =~= rows);
        front.lemma_filter_push(last, has_other_id(id));
        assert(rows.remove(i) =~= front);
    } else {
        assert(front[i] == rows[i]);
        assert forall|a: int, b: int| 0 <= a < b < front.len() implies front[a].id
            != front[b].id by {
            assert(front[a] == rows[a] && front[b] == rows[b]);
        }
        lemma_without_present(front, id, i);
        assert(last.id != id);
        assert(front.push(last) =~= rows);
        front.lemma_filter_push(last, has_other_id(id));
        assert(front.remove(i).push(last) =~= rows.remove(i));
    }
}

/// Removing a row keeps ids unique.
pub proof fn lemma_remove_keeps_unique(rows: Seq<RowView>, i: int)
    requires
        unique_ids(rows),
        0 <= i < rows.len(),
    ensures
        unique_ids(rows.remove(i)),
{
    let out = rows.remove(i);
    assert forall|a: int, b: int| 0 <= a < b < out.len() implies out[a].id != out[b].id by {
        let a0 = if a < i { a } else { a + 1 };
        let b0 = if b < i { b } else { b + 1 };
        assert(out[a] == rows[a0]);
        assert(out[b] == rows[b0]);
    }
}

/// Insert-or-replace keeps ids unique.
pub proof fn lemma_upserted_keeps_unique(rows: Seq<RowView>, row: RowView)
    requires
        unique_ids(rows),
    ensures
        unique_ids(upserted(rows, row)),
        upserted(rows, row).len() == rows.len() + (if has_id(rows, row.id) { 0int } else { 1int }),
{
    let out = upserted(rows, row);
    if has_id(rows, row.id) {
        assert forall|a: int, b: int| 0 <= a < b < out.len() implies out[a].id != out[b].id by {
            assert(out[a].id == rows[a].id);
            assert(out[b].id == rows[b].id);
        }
    } else {
        assert forall|a: int, b: int| 0 <= a < b < out.len() implies out[a].id != out[b].id by {
            if b == rows.len() {
                assert(out[a] == rows[a]);
            }
        }
    }
}

/// No two tags share an id.
pub open spec fn unique_tag_ids(tags: Seq<TagView>) -> bool {
    forall|i: int, j: int| 0 <= i < j < tags.len() ==> tags[i].id != tags[j].id
}

/// Some tag has the id `id`.
pub open spec fn has_tag_id(tags: Seq<TagView>, id: Seq<char>) -> bool {
    exists|i: int| 0 <= i < tags.len() && tags[i].id == id
}

/// The tag table after insert-or-replace of `tag`.
pub open spec fn upserted_tag(tags: Seq<TagView>, tag: TagView) -> Seq<TagView> {
    if has_tag_id(tags, tag.id) {
        tags.map_values(
            |t: TagView|
                if t.id == tag.id {
                    tag
                } else {
                    t
                },
        )
    } else {
        tags.push(tag)
    }
}

/// Insert-or-replace of a tag keeps ids unique.
pub proof fn lemma_upserted_tag_keeps_unique(tags: Seq<TagView>, tag: TagView)
    requires
        unique_tag_ids(tags),
    ensures
        unique_tag_ids(upserted_tag(tags, tag)),
{
    let out = upserted_tag(tags, tag);
    if has_tag_id(tags, tag.id) {
        assert forall|a: int, b: int| 0 <= a < b < out.len() implies out[a].id != out[b].id by {
            assert(out[a].id == tags[a].id);
            assert(out[b].id == tags[b].id);
        }
    } else {
        assert forall|a: int, b: int| 0 <= a < b < out.len() implies out[a].id != out[b].id by {
            if b == tags.len() {
                assert(out[a] == tags[a]);
            }
        }
    }
}

/// The number of tags at the head of `sorted` whose name does not come
/// behind `name`.
pub open spec fn name_slot(sorted: Seq<TagView>, name: Seq<char>) -> int
    decreases sorted.len(),
{
    if sorted.len() == 0 || text_lt(name, sorted[0].name) {
        0
    } else {
        1 + name_slot(sorted.drop_first(), name)
    }
}

/// The tags of a table in the order of their names. Tags with the same
/// name keep their storage order.
pub open spec fn by_name(tags: Seq<TagView>) -> Seq<TagView>
    decreases tags.len(),
{
    if tags.len() == 0 {
        tags
    } else {
        let sorted = by_name(tags.drop_last());
        sorted.insert(name_slot(sorted, tags.last().name), tags.last())
    }
}

/// No tag comes before a tag whose name comes before its own.
pub open spec fn names_ascend(tags: Seq<TagView>) -> bool {
    forall|i: int, j: int| 0 <= i < j < tags.len() ==> !text_lt(tags[j].name, tags[i].name)
}

/// The disease labels of the rows, in the order of the rows.
pub open spec fn diseases(rows: Seq<RowView>) -> Seq<Seq<char>> {
    rows.map_values(|r: RowView| r.disease)
}

/// The type labels of the rows, in the order of the rows.
pub open spec fn template_types(rows: Seq<RowView>) -> Seq<Seq<char>> {
    rows.map_values(|r: RowView| r.template_type)
}

/// The counts after one more occurrence of `label`: its entry counts one
/// more, or a new entry with the count 1 stands where the order of the
/// labels puts it.
pub open spec fn tally(counts: Seq<(Seq<char>, int)>, label: Seq<char>) -> Seq<(Seq<char>, int)>
    decreases counts.len(),
{
    if counts.len() == 0 {
        seq![(label, 1int)]
    } else if counts[0].0 == label {
        seq![(label, counts[0].1 + 1)] + counts.drop_first()
    } else if text_lt(label, counts[0].0) {
        seq![(label, 1int)] + counts
    } else {
        seq![counts[0]] + tally(counts.drop_first(), label)
    }
}

/// Each distinct label with the number of its occurrences, in the order of
/// the labels.
pub open spec fn category_counts(labels: Seq<Seq<char>>) -> Seq<(Seq<char>, int)>
    decreases labels.len(),
{
    if labels.len() == 0 {
        Seq::empty()
    } else {
        tally(category_counts(labels.drop_last()), labels.last())
    }
}

/// Every count fits in an `i32`.
pub open spec fn counts_fit(counts: Seq<(Seq<char>, int)>) -> bool {
    forall|k: int| 0 <= k < counts.len() ==> (#[trigger] counts[k]).1 <= i32::MAX
}

/// The counts as `i32` values.
pub open spec fn narrowed(counts: Seq<(Seq<char>, int)>) -> Seq<(Seq<char>, i32)> {
    counts.map_values(|e: (Seq<char>, int)| (e.0, e.1 as i32))
}

/// Row `k` is the one row with the id `id`.
pub open spec fn is_only_with_id(rows: Seq<RowView>, id: Seq<char>, k: int) -> bool {
    &&& 0 <= k < rows.len()
    &&& rows[k].id == id
    &&& forall|j: int| 0 <= j < rows.len() && j != k ==> rows[j].id != id
}

/// The listing by recency holds the rows of the table and no others, and
/// ids that are unique in the table are unique in the listing.
pub proof fn lemma_by_recency_rows(rows: Seq<RowView>)
    ensures
        forall|k: int|
            0 <= k < by_recency(rows).len() ==> rows.contains(#[trigger] by_recency(rows)[k]),
        forall|m: int| 0 <= m < rows.len() ==> by_recency(rows).contains(#[trigger] rows[m]),
        unique_ids(rows) ==> unique_ids(by_recency(rows)),
    decreases rows.len(),
{
    if rows.len() == 0 {
    } else {
        let front = rows.drop_last();
        let last = rows.last();
        lemma_by_recency_rows(front);
        let sorted = by_recency(front);
        lemma_recency_slot(sorted, last.updated_at);
        let p = recency_slot(sorted, last.updated_at);
        let out = sorted.insert(p, last);
        assert forall|k: int| 0 <= k < out.len() implies rows.contains(#[trigger] out[k]) by {
            if k == p {
                assert(rows[rows.len() - 1] == out[k]);
            } else {
                let k0 = if k < p { k } else { k - 1 };
                assert(out[k] == sorted[k0]);
                assert(front.contains(sorted[k0]));
                let m = choose|m: int| 0 <= m < front.len() && front[m] == sorted[k0];
                assert(rows[m] == out[k]);
            }
        }
        assert forall|m: int| 0 <= m < rows.len() implies out.contains(#[trigger] rows[m]) by {
            if m == rows.len() - 1 {
                assert(out[p] == rows[m]);
            } else {
                assert(front[m] == rows[m]);
                assert(sorted.contains(front[m]));
                let k0 = choose|k0: int| 0 <= k0 < sorted.len() && sorted[k0] == front[m];
                let k = if k0 < p { k0 } else { k0 + 1 };
                assert(out[k] == rows[m]);
            }
        }
        if unique_ids(rows) {
            assert forall|a: int, b: int| 0 <= a < b < front.len() implies front[a].id
                != front[b].id by {
                assert(front[a] == rows[a] && front[b] == rows[b]);
            }
            assert forall|k: int| 0 <= k < sorted.len() implies sorted[k].id != last.id by {
                assert(front.contains(sorted[k]));
                let m = choose|m: int| 0 <= m < front.len() && front[m] == sorted[k];
                assert(rows[m] == sorted[k]);
            }
            assert forall|a: int, b: int| 0 <= a < b < out.len() implies out[a].id
                != out[b].id by {
                let a0 = if a < p { a } else { a - 1 };
                let b0 = if b < p { b } else { b - 1 };
                if a == p {
                    assert(out[b] == sorted[b0]);
                } else if b == p {
                    assert(out[a] == sorted[a0]);
                } else {
                    assert(out[a] == sorted[a0] && out[b] == sorted[b0]);
                }
            }
        }
    }
}

/// The slot of a name stands behind every tag whose name does not come
/// behind it and, where tags follow, before a tag whose name does.
pub proof fn lemma_name_slot(sorted: Seq<TagView>, name: Seq<char>)
    ensures
        0 <= name_slot(sorted, name) <= sorted.len(),
        forall|j: int| 0 <= j < name_slot(sorted, name) ==> !text_lt(name, sorted[j].name),
        name_slot(sorted, name) < sorted.len() ==> text_lt(
            name,
            sorted[name_slot(sorted, name)].name,
        ),
    decreases sorted.len(),
{
    if sorted.len() == 0 || text_lt(name, sorted[0].name) {
    } else {
        let rest = sorted.drop_first();
        lemma_name_slot(rest, name);
        let p = name_slot(rest, name);
        assert forall|j: int| 0 <= j < p + 1 implies !text_lt(name, sorted[j].name) by {
            if j > 0 {
                assert(sorted[j] == rest[j - 1]);
            }
        }
        if p + 1 < sorted.len() {
            assert(sorted[p + 1] == rest[p]);
        }
    }
}

/// The listing by name holds the tags of the table, each as often as the
/// table does, and no tag in it comes before a tag with an earlier name.
pub proof fn lemma_by_name(tags: Seq<TagView>)
    ensures
        by_name(tags).len() == tags.len(),
        by_name(tags).to_multiset() == tags.to_multiset(),
        names_ascend(by_name(tags)),
    decreases tags.len(),
{
    broadcast use {vstd::seq_lib::to_multiset_build, vstd::seq_lib::to_multiset_insert};

    if tags.len() == 0 {
    } else {
        let front = tags.drop_last();
        let last = tags.last();
        lemma_by_name(front);
        let sorted = by_name(front);
        lemma_name_slot(sorted, last.name);
        let p = name_slot(sorted, last.name);
        let out = sorted.insert(p, last);
        assert(tags =~= front.push(last));
        assert(out.to_multiset() == sorted.to_multiset().insert(last));
        assert(tags.to_multiset() == front.to_multiset().insert(last));
        assert forall|i: int, j: int| 0 <= i < j < out.len() implies !text_lt(
            out[j].name,
            out[i].name,
        ) by {
            if j < p {
                assert(out[i] == sorted[i] && out[j] == sorted[j]);
            } else if j == p {
                assert(out[i] == sorted[i]);
            } else if i < p {
                assert(out[i] == sorted[i] && out[j] == sorted[j - 1]);
            } else if i == p {
                assert(out[j] == sorted[j - 1]);
                if text_lt(sorted[j - 1].name, last.name) {
                    lemma_text_lt_transitive(sorted[j - 1].name, last.name, sorted[p].name);
                    if j - 1 == p {
                        lemma_text_lt_irreflexive(sorted[p].name);
                    }
                }
            } else {
                assert(out[i] == sorted[i - 1] && out[j] == sorted[j - 1]);
            }
        }
    }
}

/// The labels of the entries ascend strictly.
pub open spec fn labels_ascend(counts: Seq<(Seq<char>, int)>) -> bool {
    forall|i: int, j: int| 0 <= i < j < counts.len() ==> text_lt(counts[i].0, counts[j].0)
}

/// How often `label` occurs among `labels`.
pub open spec fn occurrences(labels: Seq<Seq<char>>, label: Seq<char>) -> int
    decreases labels.len(),
{
    if labels.len() == 0 {
        0
    } else {
        occurrences(labels.drop_last(), label) + if labels.last() == label {
            1int
        } else {
            0int
        }
    }
}

/// The sum of the numbers of the entries with the label `label`.
pub open spec fn count_in(counts: Seq<(Seq<char>, int)>, label: Seq<char>) -> int
    decreases counts.len(),
{
    if counts.len() == 0 {
        0
    } else {
        (if counts[0].0 == label {
            counts[0].1
        } else {
            0int
        }) + count_in(counts.drop_first(), label)
    }
}

proof fn lemma_count_in_absent(counts: Seq<(Seq<char>, int)>, label: Seq<char>)
    requires
        forall|j: int| 0 <= j < counts.len() ==> counts[j].0 != label,
    ensures
        count_in(counts, label) == 0,
    decreases counts.len(),
{
    if counts.len() > 0 {
        let rest = counts.drop_first();
        assert forall|j: int| 0 <= j < rest.len() implies rest[j].0 != label by {
            assert(rest[j] == counts[j + 1]);
        }
        lemma_count_in_absent(rest, label);
    }
}

proof fn lemma_count_in_entry(counts: Seq<(Seq<char>, int)>, k: int)
    requires
        labels_ascend(counts),
        0 <= k < counts.len(),
    ensures
        count_in(counts, counts[k].0) == counts[k].1,
    decreases counts.len(),
{
    let rest = counts.drop_first();
    let label = counts[k].0;
    assert forall|i: int, j: int| 0 <= i < j < rest.len() implies text_lt(
        rest[i].0,
        rest[j].0,
    ) by {
        assert(rest[i] == counts[i + 1] && rest[j] == counts[j + 1]);
    }
    if k == 0 {
        assert forall|j: int| 0 <= j < rest.len() implies rest[j].0 != label by {
            assert(rest[j] == counts[j + 1]);
            assert(text_lt(counts[0].0, counts[j + 1].0));
            lemma_text_lt_irreflexive(label);
        }
        lemma_count_in_absent(rest, label);
    } else {
        assert(text_lt(counts[0].0, counts[k].0));
        lemma_text_lt_irreflexive(label);
        assert(rest[k - 1] == counts[k]);
        lemma_count_in_entry(rest, k - 1);
    }
}

proof fn lemma_count_in_present(counts: Seq<(Seq<char>, int)>, label: Seq<char>)
    requires
        count_in(counts, label) != 0,
    ensures
        exists|k: int| 0 <= k < counts.len() && counts[k].0 == label,
    decreases counts.len(),
{
    if counts.len() > 0 {
        if counts[0].0 == label {
            assert(0 <= 0 < counts.len() && counts[0].0 == label);
        } else {
            let rest = counts.drop_first();
            lemma_count_in_present(rest, label);
            let k = choose|k: int| 0 <= k < rest.len() && rest[k].0 == label;
            assert(counts[k + 1] == rest[k]);
            assert(0 <= k + 1 < counts.len() && counts[k + 1].0 == label);
        }
    }
}

/// One more occurrence of `label` adds one to the number for `label` and
/// leaves every other number as it was.
proof fn lemma_tally_count(counts: Seq<(Seq<char>, int)>, label: Seq<char>, other: Seq<char>)
    ensures
        count_in(tally(counts, label), other) == count_in(counts, other) + if other == label {
            1int
        } else {
            0int
        },
    decreases counts.len(),
{
    let out = tally(counts, label);
    if counts.len() == 0 {
        assert(out.drop_first() =~= Seq::<(Seq<char>, int)>::empty());
        assert(count_in(out.drop_first(), other) == 0);
    } else if counts[0].0 == label {
        assert(out.drop_first() =~= counts.drop_first());
    } else if text_lt(label, counts[0].0) {
        assert(out.drop_first() =~= counts);
    } else {
        lemma_tally_count(counts.drop_first(), label, other);
        assert(out.drop_first() =~= tally(counts.drop_first(), label));
    }
}

/// One more occurrence keeps the labels in strict order and the numbers
/// positive, and brings in no label but the one counted.
proof fn lemma_tally_ascends(counts: Seq<(Seq<char>, int)>, label: Seq<char>)
    requires
        labels_ascend(counts),
        forall|k: int| 0 <= k < counts.len() ==> counts[k].1 >= 1,
    ensures
        labels_ascend(tally(counts, label)),
        forall|k: int| 0 <= k < tally(counts, label).len() ==> tally(counts, label)[k].1 >= 1,
        forall|k: int|
            0 <= k < tally(counts, label).len() ==> (#[trigger] tally(counts, label)[k]).0
                == label || exists|m: int|
                0 <= m < counts.len() && counts[m].0 == tally(counts, label)[k].0,
    decreases counts.len(),
{
    let out = tally(counts, label);
    if counts.len() == 0 {
    } else if counts[0].0 == label {
        assert forall|k: int| 0 <= k < out.len() implies out[k].0 == counts[k].0 && out[k].1
            >= 1 by {
            if k > 0 {
                assert(out[k] == counts[k]);
            }
        }
        assert forall|k: int| 0 <= k < out.len() implies (#[trigger] out[k]).0 == label
            || exists|m: int| 0 <= m < counts.len() && counts[m].0 == out[k].0 by {
            assert(0 <= k < counts.len() && counts[k].0 == out[k].0);
        }
    } else if text_lt(label, counts[0].0) {
        assert forall|i: int, j: int| 0 <= i < j < out.len() implies text_lt(
            out[i].0,
            out[j].0,
        ) by {
            assert(out[j] == counts[j - 1]);
            if i == 0 {
                if j - 1 > 0 {
                    lemma_text_lt_transitive(label, counts[0].0, counts[j - 1].0);
                }
            } else {
                assert(out[i] == counts[i - 1]);
            }
        }
        assert forall|k: int| 0 <= k < out.len() implies (#[trigger] out[k]).0 == label
            || exists|m: int| 0 <= m < counts.len() && counts[m].0 == out[k].0 by {
            if k > 0 {
                assert(out[k] == counts[k - 1]);
                assert(0 <= k - 1 < counts.len() && counts[k - 1].0 == out[k].0);
            }
        }
        assert forall|k: int| 0 <= k < out.len() implies out[k].1 >= 1 by {
            if k > 0 {
                assert(out[k] == counts[k - 1]);
            }
        }
    } else {
        let rest = counts.drop_first();
        assert forall|i: int, j: int| 0 <= i < j < rest.len() implies text_lt(
            rest[i].0,
            rest[j].0,
        ) by {
            assert(rest[i] == counts[i + 1] && rest[j] == counts[j + 1]);
        }
        assert forall|k: int| 0 <= k < rest.len() implies rest[k].1 >= 1 by {
            assert(rest[k] == counts[k + 1]);
        }
        lemma_tally_ascends(rest, label);
        let inner = tally(rest, label);
        lemma_text_lt_total(label, counts[0].0);
        assert(text_lt(counts[0].0, label));
        assert forall|k: int| 0 <= k < inner.len() implies text_lt(counts[0].0, inner[k].0) by {
            if inner[k].0 != label {
                let m = choose|m: int| 0 <= m < rest.len() && rest[m].0 == inner[k].0;
                assert(rest[m] == counts[m + 1]);
            }
        }
        assert forall|i: int, j: int| 0 <= i < j < out.len() implies text_lt(
            out[i].0,
            out[j].0,
        ) by {
            assert(out[j] == inner[j - 1]);
            if i > 0 {
                assert(out[i] == inner[i - 1]);
            }
        }
        assert forall|k: int| 0 <= k < out.len() implies out[k].1 >= 1 by {
            if k > 0 {
                assert(out[k] == inner[k - 1]);
            }
        }
        assert forall|k: int| 0 <= k < out.len() implies (#[trigger] out[k]).0 == label
            || exists|m: int| 0 <= m < counts.len() && counts[m].0 == out[k].0 by {
            if k == 0 {
                assert(0 <= 0 < counts.len() && counts[0].0 == out[k].0);
            } else {
                assert(out[k] == inner[k - 1]);
                if inner[k - 1].0 != label {
                    let m = choose|m: int| 0 <= m < rest.len() && rest[m].0 == inner[k - 1].0;
                    assert(rest[m] == counts[m + 1]);
                    assert(0 <= m + 1 < counts.len() && counts[m + 1].0 == out[k].0);
                }
            }
        }
    }
}

proof fn lemma_category_counts_sum(labels: Seq<Seq<char>>, label: Seq<char>)
    ensures
        count_in(category_counts(labels), label) == occurrences(labels, label),
    decreases labels.len(),
{
    if labels.len() > 0 {
        lemma_category_counts_sum(labels.drop_last(), label);
        lemma_tally_count(category_counts(labels.drop_last()), labels.last(), label);
    }
}

proof fn lemma_category_counts_ascend(labels: Seq<Seq<char>>)
    ensures
        labels_ascend(category_counts(labels)),
        forall|k: int| 0 <= k < category_counts(labels).len() ==> category_counts(labels)[k].1 >= 1,
    decreases labels.len(),
{
    if labels.len() > 0 {
        lemma_category_counts_ascend(labels.drop_last());
        lemma_tally_ascends(category_counts(labels.drop_last()), labels.last());
    }
}

proof fn lemma_occurrences_present(labels: Seq<Seq<char>>, i: int)
    requires
        0 <= i < labels.len(),
    ensures
        occurrences(labels, labels[i]) >= 1,
        forall|label: Seq<char>| occurrences(labels, label) >= 0,
    decreases labels.len(),
{
    let front = labels.drop_last();
    assert forall|label: Seq<char>| occurrences(labels, label) >= 0 by {
        lemma_occurrences_bounds(labels, label);
    }
    if i < labels.len() - 1 {
        assert(front[i] == labels[i]);
        lemma_occurrences_present(front, i);
    } else {
        lemma_occurrences_bounds(front, labels[i]);
    }
}

proof fn lemma_occurrences_bounds(labels: Seq<Seq<char>>, label: Seq<char>)
    ensures
        0 <= occurrences(labels, label) <= labels.len(),
    decreases labels.len(),
{
    if labels.len() > 0 {
        lemma_occurrences_bounds(labels.drop_last(), label);
    }
}

/// The category counts list the labels in strict order, each label that
/// occurs exactly once, with the number of its occurrences.
pub proof fn lemma_category_counts(labels: Seq<Seq<char>>)
    ensures
        labels_ascend(category_counts(labels)),
        forall|k: int|
            0 <= k < category_counts(labels).len() ==> (#[trigger] category_counts(labels)[k]).1
                == occurrences(labels, category_counts(labels)[k].0) && category_counts(
                labels,
            )[k].1 >= 1,
        forall|i: int|
            0 <= i < labels.len() ==> exists|k: int|
                0 <= k < category_counts(labels).len() && category_counts(labels)[k].0
                    == #[trigger] labels[i],
{
    let counts = category_counts(labels);
    lemma_category_counts_ascend(labels);
    assert forall|k: int| 0 <= k < counts.len() implies (#[trigger] counts[k]).1 == occurrences(
        labels,
        counts[k].0,
    ) && counts[k].1 >= 1 by {
        lemma_count_in_entry(counts, k);
        lemma_category_counts_sum(labels, counts[k].0);
    }
    assert forall|i: int| 0 <= i < labels.len() implies exists|k: int|
        0 <= k < counts.len() && counts[k].0 == #[trigger] labels[i] by {
        lemma_occurrences_present(labels, i);
        lemma_category_counts_sum(labels, labels[i]);
        lemma_count_in_present(counts, labels[i]);
    }
}

/// `r` is the answer to a request for the templates of `rows`: the
/// templates that the rows stand for, in the order of the rows, or a
/// decode failure where a row stands for none.
pub open spec fn is_listing_of(r: Result<Vec<Template>, StoreError>, rows: Seq<RowView>) -> bool {
    match r {
        Ok(v) => all_decode(rows) && v.deep_view() == decoded(rows),
        Err(e) => e is DecodeFailure && !all_decode(rows),
    }
}

/// `r` is the answer to a lookup that found `row`: nothing where nothing
/// was found, else the template that the row stands for, or a decode
/// failure where it stands for none.
pub open spec fn is_lookup_of(r: Result<Option<Template>, StoreError>, row: Option<RowView>) -> bool {
    match row {
        None => r matches Ok(None),
        Some(row) => match r {
            Ok(Some(template)) => template_of(row) == Some(template@),
            Ok(None) => false,
            Err(e) => e is DecodeFailure && template_of(row) is None,
        },
    }
}

/// `r` is the answer to a request for the category counts of `labels`:
/// the counts, or a failure of the storage engine where a number does not
/// fit in an `i32`.
pub open spec fn is_count_of(r: Result<Vec<(String, i32)>, StoreError>, labels: Seq<Seq<char>>) -> bool {
    match r {
        Ok(v) => counts_fit(category_counts(labels)) && v.deep_view() == narrowed(
            category_counts(labels),
        ),
        Err(e) => e is StorageEngine && !counts_fit(category_counts(labels)),
    }
}

/// `r` is the answer to a request for the tags `tags`.
pub open spec fn is_tags_of(r: Result<Vec<Tag>, StoreError>, tags: Seq<TagView>) -> bool {
    r matches Ok(v) && v.deep_view() == tags
}

} // verus!
