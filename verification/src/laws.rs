//! Laws that relate several operations of the catalog. Each is stated over
//! the tables as the contracts of the operations speak of them.

use vstd::prelude::*;
use crate::codec::{lemma_template_round_trip, row_of, template_of};
use crate::pattern::lemma_containment_matches;
use crate::record::{RowView, TemplateView};
use crate::table::{
    all_decode, by_recency, found, has_id, hit_for, hits, is_first_with_id, is_only_with_id,
    lemma_by_recency_rows, lemma_remove_keeps_unique, lemma_upserted_keeps_unique,
    lemma_without_absent, lemma_without_present, toggled,
    unique_ids, upserted, without_id,
};
use crate::text::contains_text;

verus! {

/// Insert-or-replace of the same row twice leaves the table as it was
/// after the first.
pub proof fn law_upsert_idempotent(rows: Seq<RowView>, row: RowView)
    ensures
        upserted(upserted(rows, row), row) == upserted(rows, row),
{
    let once = upserted(rows, row);
    if has_id(rows, row.id) {
        let i = choose|i: int| 0 <= i < rows.len() && rows[i].id == row.id;
        assert(0 <= i < once.len() && once[i].id == row.id);
        assert(upserted(once, row) =~= once);
    } else {
        let last = rows.len() as int;
        assert(0 <= last < once.len() && once[last].id == row.id);
        assert(upserted(once, row) =~= once);
    }
}

/// After insert-or-replace of a template, the lookup of its id finds its
/// row, and the row decodes to the template.
pub proof fn law_upsert_then_lookup(rows: Seq<RowView>, template: TemplateView)
    requires
        unique_ids(rows),
    ensures
        unique_ids(upserted(rows, row_of(template))),
        found(upserted(rows, row_of(template)), template.id) == Some(row_of(template)),
        template_of(row_of(template)) == Some(template),
{
    let id = template.id;
    let row = row_of(template);
    let table = upserted(rows, row);
    lemma_upserted_keeps_unique(rows, row);
    lemma_template_round_trip(template);
    let i = if has_id(rows, id) {
        choose|i: int| 0 <= i < rows.len() && rows[i].id == id
    } else {
        rows.len() as int
    };
    assert(table[i] == row);
    assert(is_first_with_id(table, id, i)) by {
        assert forall|j: int| 0 <= j < i implies table[j].id != id by {
            assert(table[j].id != table[i].id);
        }
    }
    let c = choose|c: int| is_first_with_id(table, id, c);
    assert(c == i);
}

/// After the removal of an id, the lookup of the id finds nothing, and the
/// lookup of any other id finds what it found before.
pub proof fn law_delete_then_lookup(rows: Seq<RowView>, id: Seq<char>, other: Seq<char>)
    requires
        unique_ids(rows),
        other != id,
    ensures
        unique_ids(without_id(rows, id)),
        found(without_id(rows, id), id) is None,
        found(without_id(rows, id), other) == found(rows, other),
{
    let out = without_id(rows, id);
    law_delete_idempotent(rows, id);
    if has_id(rows, id) {
        let i = choose|i: int| 0 <= i < rows.len() && rows[i].id == id;
        lemma_without_present(rows, id, i);
        lemma_remove_keeps_unique(rows, i);
        if exists|c: int| is_first_with_id(rows, other, c) {
            let c = choose|c: int| is_first_with_id(rows, other, c);
            let d = if c < i { c } else { c - 1 };
            assert(out[d] == rows[c]);
            assert(is_first_with_id(out, other, d)) by {
                assert forall|j: int| 0 <= j < d implies out[j].id != other by {
                    assert(out[j] == rows[if j < i { j } else { j + 1 }]);
                }
            }
            let e = choose|e: int| is_first_with_id(out, other, e);
            assert(e == d);
        } else {
            assert forall|e: int| !is_first_with_id(out, other, e) by {
                if is_first_with_id(out, other, e) {
                    let c = if e < i { e } else { e + 1 };
                    assert(out[e] == rows[c]);
                    lemma_first_exists(rows, other, c);
                }
            }
        }
    } else {
        lemma_without_absent(rows, id);
    }
    assert forall|c: int| !is_first_with_id(out, id, c) by {
        if is_first_with_id(out, id, c) {
            assert(0 <= c < out.len() && out[c].id == id);
        }
    }
}

/// Where some row has the id, some row is the first with the id.
proof fn lemma_first_exists(rows: Seq<RowView>, id: Seq<char>, c: int)
    requires
        0 <= c < rows.len(),
        rows[c].id == id,
    ensures
        exists|f: int| is_first_with_id(rows, id, f),
    decreases c,
{
    if forall|j: int| 0 <= j < c ==> rows[j].id != id {
        assert(is_first_with_id(rows, id, c));
    } else {
        let j = choose|j: int| 0 <= j < c && rows[j].id == id;
        lemma_first_exists(rows, id, j);
    }
}

/// After insert-or-replace of two templates with the same id, the lookup
/// of the id finds the second and decodes to it, and the listing holds
/// exactly one row with the id.
pub proof fn law_upsert_replaces(rows: Seq<RowView>, first: TemplateView, second: TemplateView)
    requires
        unique_ids(rows),
        first.id == second.id,
    ensures
        ({
            let table = upserted(upserted(rows, row_of(first)), row_of(second));
            &&& unique_ids(table)
            &&& found(table, first.id) == Some(row_of(second))
            &&& template_of(row_of(second)) == Some(second)
            &&& exists|k: int| is_only_with_id(by_recency(table), first.id, k)
        }),
{
    let id = first.id;
    let once = upserted(rows, row_of(first));
    let table = upserted(once, row_of(second));
    lemma_upserted_keeps_unique(rows, row_of(first));
    lemma_upserted_keeps_unique(once, row_of(second));
    lemma_template_round_trip(second);
    // Some row of `once` has the id, so the second call replaces it.
    if has_id(rows, id) {
        let i = choose|i: int| 0 <= i < rows.len() && rows[i].id == id;
        assert(0 <= i < once.len() && once[i].id == id);
    } else {
        let last = rows.len() as int;
        assert(0 <= last < once.len() && once[last].id == id);
    }
    assert(has_id(once, id));
    let i = choose|i: int| 0 <= i < once.len() && once[i].id == id;
    assert(table[i] == row_of(second));
    assert(is_first_with_id(table, id, i)) by {
        assert forall|j: int| 0 <= j < i implies table[j].id != id by {
            assert(table[j].id == once[j].id);
        }
    }
    let c = choose|c: int| is_first_with_id(table, id, c);
    assert(c == i);
    // The listing holds the rows of the table, with unique ids.
    lemma_by_recency_rows(table);
    let listing = by_recency(table);
    assert(listing.contains(table[i]));
    let k = choose|k: int| 0 <= k < listing.len() && listing[k] == table[i];
    assert(is_only_with_id(listing, id, k)) by {
        assert forall|j: int| 0 <= j < listing.len() && j != k implies listing[j].id != id by {
            if j < k {
                assert(listing[j].id != listing[k].id);
            } else {
                assert(listing[k].id != listing[j].id);
            }
        }
    }
}

/// Toggling the favorite flag of an id twice gives every row its flag
/// back. Each toggle inverts the flag of the row with the id and stamps it
/// with the time of the toggle, which is later than the time before
/// wherever the clock has moved on; rows with another id stay as they are.
pub proof fn law_toggle_twice(rows: Seq<RowView>, id: Seq<char>, first: i64, second: i64)
    ensures
        ({
            let once = toggled(rows, id, first);
            let twice = toggled(once, id, second);
            &&& once.len() == rows.len()
            &&& twice.len() == rows.len()
            &&& forall|k: int|
                0 <= k < rows.len() ==> {
                    &&& (#[trigger] twice[k]).is_favorite == rows[k].is_favorite
                    &&& rows[k].id != id ==> once[k] == rows[k] && twice[k] == rows[k]
                    &&& rows[k].id == id ==> {
                        &&& once[k].is_favorite != rows[k].is_favorite
                        &&& once[k].updated_at == first
                        &&& twice[k].updated_at == second
                        &&& rows[k].updated_at < first < second ==> rows[k].updated_at
                            < once[k].updated_at < twice[k].updated_at
                    }
                }
        }),
{
    let once = toggled(rows, id, first);
    let twice = toggled(once, id, second);
    assert forall|k: int| 0 <= k < rows.len() implies {
        &&& (#[trigger] twice[k]).is_favorite == rows[k].is_favorite
        &&& rows[k].id != id ==> once[k] == rows[k] && twice[k] == rows[k]
        &&& rows[k].id == id ==> {
            &&& once[k].is_favorite != rows[k].is_favorite
            &&& once[k].updated_at == first
            &&& twice[k].updated_at == second
            &&& rows[k].updated_at < first < second ==> rows[k].updated_at < once[k].updated_at
                < twice[k].updated_at
        }
    } by {
        assert(once[k].id == rows[k].id);
    }
}

/// Removing an id twice is removing it once; in particular, removing an
/// id that no row has changes nothing.
pub proof fn law_delete_idempotent(rows: Seq<RowView>, id: Seq<char>)
    ensures
        !has_id(without_id(rows, id), id),
        without_id(without_id(rows, id), id) == without_id(rows, id),
        !has_id(rows, id) ==> without_id(rows, id) == rows,
{
    let out = without_id(rows, id);
    assert forall|k: int| 0 <= k < out.len() implies out[k].id != id by {
        rows.lemma_filter_pred(crate::table::has_other_id(id), k);
    }
    lemma_without_absent(out, id);
    if !has_id(rows, id) {
        lemma_without_absent(rows, id);
    }
}

/// The search for a keyword finds every row whose title holds the keyword,
/// character for character.
pub proof fn law_search_finds_titles(rows: Seq<RowView>, keyword: Seq<char>, i: int)
    requires
        0 <= i < rows.len(),
        contains_text(rows[i].title, keyword),
    ensures
        hits(rows, keyword).contains(rows[i]),
{
    lemma_by_recency_rows(rows);
    let listing = by_recency(rows);
    assert(listing.contains(rows[i]));
    let k = choose|k: int| 0 <= k < listing.len() && listing[k] == rows[i];
    lemma_containment_matches(rows[i].title, keyword);
    assert(hit_for(keyword)(listing[k]));
    listing.lemma_filter_contains(hit_for(keyword), k);
}

/// The listing of a table decodes exactly where every row of the table
/// decodes: the order of the rows plays no part in it.
pub proof fn law_listing_decodes(rows: Seq<RowView>)
    ensures
        all_decode(by_recency(rows)) <==> all_decode(rows),
{
    lemma_by_recency_rows(rows);
    let listing = by_recency(rows);
    if all_decode(rows) {
        assert forall|k: int| 0 <= k < listing.len() implies (#[trigger] template_of(
            listing[k],
        )) is Some by {
            assert(rows.contains(listing[k]));
            let m = choose|m: int| 0 <= m < rows.len() && rows[m] == listing[k];
            assert(template_of(rows[m]) is Some);
        }
    }
    if all_decode(listing) {
        assert forall|m: int| 0 <= m < rows.len() implies (#[trigger] template_of(
            rows[m],
        )) is Some by {
            assert(listing.contains(rows[m]));
            let k = choose|k: int| 0 <= k < listing.len() && listing[k] == rows[m];
            assert(template_of(listing[k]) is Some);
        }
    }
}

/// A table in which every row decodes stays so under insert-or-replace of
/// a template, under removal of an id and under a toggle: a read fails
/// only on a row that was stored as it is.
pub proof fn law_operations_keep_rows_decodable(
    rows: Seq<RowView>,
    template: TemplateView,
    id: Seq<char>,
    now: i64,
)
    requires
        all_decode(rows),
    ensures
        all_decode(upserted(rows, row_of(template))),
        all_decode(without_id(rows, id)),
        all_decode(toggled(rows, id, now)),
{
    lemma_template_round_trip(template);
    let put = upserted(rows, row_of(template));
    assert forall|k: int| 0 <= k < put.len() implies (#[trigger] template_of(put[k])) is Some by {
        if k < rows.len() {
            assert(template_of(rows[k]) is Some);
        }
    }
    let cut = without_id(rows, id);
    assert forall|k: int| 0 <= k < cut.len() implies (#[trigger] template_of(cut[k])) is Some by {
        rows.lemma_filter_contains_rev(crate::table::has_other_id(id), cut[k]);
        let m = choose|m: int| 0 <= m < rows.len() && rows[m] == cut[k];
        assert(template_of(rows[m]) is Some);
    }
    let flip = toggled(rows, id, now);
    assert forall|k: int| 0 <= k < flip.len() implies (#[trigger] template_of(flip[k])) is Some by {
        assert(template_of(rows[k]) is Some);
    }
}

} // verus!
