//! The catalog itself: the template table and the tag table, with the
//! operations on them.

use vstd::prelude::*;
use crate::codec::{decode_template, encode_template, row_of, template_of};
use crate::error::StoreError;
use crate::record::{RowView, Tag, TagView, Template, TemplateRow, TemplateView};
use crate::pattern::{make_search_pattern, matches_pattern};
use crate::table::{
    all_decode, by_name, by_recency, category_counts, counts_fit, decoded, diseases, found,
    has_id, has_tag_id, hit_for, hits, is_count_of, is_first_with_id, is_listing_of,
    is_lookup_of, is_tags_of, lemma_remove_keeps_unique,
    lemma_upserted_keeps_unique, lemma_upserted_tag_keeps_unique, lemma_without_absent,
    lemma_without_present, name_slot, narrowed, recency_slot, tally, template_types, toggled,
    unique_ids, unique_tag_ids, upserted, upserted_all, upserted_tag, without_id,
};
use crate::text::{chars_of, text_equal, text_less, text_lt, text_of};

verus! {

/// The number of milliseconds since the Unix epoch, as
/// `chrono::Utc::now().timestamp_millis()` reports it. Nothing is claimed
/// of the value: the clock may be set to any time. `Utc::now()` does not
/// return where the clock of the machine stands before the epoch; callers
/// that must not depend on the clock pass the time themselves.
#[verifier::external_body]
pub(crate) fn now_millis() -> (t: i64) {
    chrono::Utc::now().timestamp_millis()
}

/// The catalog: a table of template rows and a table of tags.
pub struct DatabaseManager {
    templates: Vec<TemplateRow>,
    tags: Vec<Tag>,
}

/// The rows of a batch of templates.
pub open spec fn rows_of(batch: Seq<TemplateView>) -> Seq<RowView> {
    batch.map_values(|t: TemplateView| row_of(t))
}

/// The rows that stand at the places `order`, in that order.
spec fn picked<T>(rows: Seq<T>, order: Seq<usize>) -> Seq<T> {
    Seq::new(order.len(), |k: int| rows[order[k] as int])
}

/// The entries made of the labels `keys` and the numbers `counts`.
spec fn entries(keys: Seq<Vec<char>>, counts: Seq<usize>) -> Seq<(Seq<char>, int)> {
    Seq::new(keys.len(), |k: int| (keys[k]@, counts[k] as int))
}

/// Counts one more occurrence of the label `label`.
fn tally_label(
    keys: &mut Vec<Vec<char>>,
    counts: &mut Vec<usize>,
    label: Vec<char>,
    Ghost(limit): Ghost<int>,
)
    requires
        old(keys).len() == old(counts).len(),
        0 <= limit < usize::MAX,
        forall|k: int| 0 <= k < old(counts).len() ==> old(counts)[k] <= limit,
    ensures
        final(keys).len() == final(counts).len(),
        entries(final(keys)@, final(counts)@) == tally(entries(old(keys)@, old(counts)@), label@),
        forall|k: int| 0 <= k < final(counts).len() ==> final(counts)[k] <= limit + 1,
{
    let ghost before = entries(keys@, counts@);
    let ghost old_counts = counts@;
    let mut p: usize = 0;
    proof {
        assert(before.skip(0) =~= before);
        assert(before.take(0) + tally(before, label@) =~= tally(before, label@));
    }
    while p < keys.len()
        invariant
            p <= keys.len(),
            keys.len() == counts.len(),
            keys@ == old(keys)@,
            counts@ == old(counts)@,
            before == entries(keys@, counts@),
            tally(before, label@) == before.take(p as int) + tally(before.skip(p as int), label@),
        ensures
            p <= keys.len(),
            keys.len() == counts.len(),
            keys@ == old(keys)@,
            counts@ == old(counts)@,
            tally(before, label@) == before.take(p as int) + tally(before.skip(p as int), label@),
            p < keys.len() ==> keys@[p as int]@ == label@ || text_lt(label@, keys@[p as int]@),
        decreases keys.len() - p,
    {
        proof {
            assert(before.skip(p as int)[0] == before[p as int]);
            assert(before.skip(p as int).drop_first() =~= before.skip(p + 1));
            assert(before.take(p + 1) =~= before.take(p as int) + seq![before[p as int]]);
        }
        if text_equal(&keys[p], &label) || text_less(&label, &keys[p]) {
            break;
        }
        proof {
            let rest = tally(before.skip(p + 1), label@);
            assert(before.take(p as int) + (seq![before[p as int]] + rest) =~= before.take(p + 1)
                + rest);
        }
        p += 1;
    }
    proof {
        assert(before.skip(p as int).len() == before.len() - p);
        if p < keys.len() {
            assert(before.skip(p as int)[0] == before[p as int]);
            assert(before.skip(p as int).drop_first() =~= before.skip(p + 1));
        }
    }
    if p < keys.len() && text_equal(&keys[p], &label) {
        let n: usize = counts[p];
        counts.set(p, n + 1);
        proof {
            let after = entries(keys@, counts@);
            let expected = before.take(p as int) + (seq![(label@, before[p as int].1 + 1)]
                + before.skip(p + 1));
            assert(after =~= expected);
            assert forall|k: int| 0 <= k < counts.len() implies counts[k] <= limit + 1 by {
                assert(counts[k] <= old_counts[k] + 1);
            }
        }
    } else {
        keys.insert(p, label);
        counts.insert(p, 1);
        proof {
            let after = entries(keys@, counts@);
            let expected = before.take(p as int) + (seq![(label@, 1int)] + before.skip(p as int));
            assert(after =~= expected);
            assert forall|k: int| 0 <= k < counts.len() implies counts[k] <= limit + 1 by {
                if k < p {
                    assert(counts[k] == old_counts[k]);
                } else if k > p {
                    assert(counts[k] == old_counts[k - 1]);
                }
            }
        }
    }
}

/// Each distinct label with the number of its occurrences, in the order of
/// the labels. It fails exactly where a number does not fit in an `i32`.
fn count_labels(labels: &Vec<String>) -> (r: Result<Vec<(String, i32)>, StoreError>)
    ensures
        is_count_of(r, labels.deep_view()),
{
    let ghost model = labels.deep_view();
    let mut keys: Vec<Vec<char>> = Vec::new();
    let mut counts: Vec<usize> = Vec::new();
    let mut i: usize = 0;
    assert(entries(keys@, counts@) =~= category_counts(model.take(0)));
    while i < labels.len()
        invariant
            i <= labels.len(),
            model == labels.deep_view(),
            keys.len() == counts.len(),
            entries(keys@, counts@) == category_counts(model.take(i as int)),
            forall|k: int| 0 <= k < counts.len() ==> counts[k] <= i,
        decreases labels.len() - i,
    {
        let label = chars_of(labels[i].as_str());
        proof {
            assert(model.take(i + 1).drop_last() =~= model.take(i as int));
            assert(model.take(i + 1).last() == label@);
        }
        tally_label(&mut keys, &mut counts, label, Ghost(i as int));
        i += 1;
    }
    assert(model.take(labels.len() as int) =~= model);
    let ghost all = category_counts(model);
    let mut out: Vec<(String, i32)> = Vec::new();
    let mut k: usize = 0;
    assert(out.deep_view() =~= narrowed(all.take(0)));
    while k < keys.len()
        invariant
            k <= keys.len(),
            keys.len() == counts.len(),
            all == entries(keys@, counts@),
            all == category_counts(labels.deep_view()),
            out.len() == k,
            counts_fit(all.take(k as int)),
            out.deep_view() == narrowed(all.take(k as int)),
        decreases keys.len() - k,
    {
        let n: usize = counts[k];
        if n > 0x7fff_ffff {
            assert(all[k as int].1 > i32::MAX);
            assert(!counts_fit(all));
            return Err(StoreError::StorageEngine("count out of range".to_string()));
        }
        let label = text_of(&keys[k], 0, keys[k].len());
        assert(keys[k as int]@.subrange(0, keys[k as int]@.len() as int) =~= keys[k as int]@);
        let ghost before = out.deep_view();
        let ghost entry = (label@, n as i32);
        out.push((label, n as i32));
        proof {
            assert(all[k as int] == (keys[k as int]@, counts[k as int] as int));
            assert(entry == (all[k as int].0, all[k as int].1 as i32));
            assert(out.deep_view() =~= before.push(entry));
            let part = all.take(k + 1);
            assert(part =~= all.take(k as int).push(all[k as int]));
            assert(narrowed(part) =~= narrowed(all.take(k as int)).push(entry));
            assert forall|q: int| 0 <= q < part.len() implies (#[trigger] part[q]).1
                <= i32::MAX by {
                if q < k {
                    assert(part[q] == all.take(k as int)[q]);
                }
            }
        }
        k += 1;
    }
    assert(all.take(keys.len() as int) =~= all);
    Ok(out)
}

impl DatabaseManager {
    /// The template table, in storage order.
    pub closed spec fn templates(&self) -> Seq<RowView> {
        self.templates.deep_view()
    }

    /// The tag table, in storage order.
    pub closed spec fn tags(&self) -> Seq<TagView> {
        self.tags.deep_view()
    }

    /// The invariant of the catalog: an id names at most one row of a
    /// table.
    pub open spec fn wf(&self) -> bool {
        unique_ids(self.templates()) && unique_tag_ids(self.tags())
    }

    /// A catalog with both tables in place and empty.
    pub fn new() -> (m: DatabaseManager)
        ensures
            m.wf(),
            m.templates() == Seq::<RowView>::empty(),
            m.tags() == Seq::<TagView>::empty(),
    {
        let m = DatabaseManager { templates: Vec::new(), tags: Vec::new() };
        assert(m.templates() =~= Seq::<RowView>::empty());
        assert(m.tags() =~= Seq::<TagView>::empty());
        m
    }

    /// The place of the row with the id `id`.
    fn position(&self, id: &String) -> (r: Option<usize>)
        ensures
            match r {
                Some(i) => is_first_with_id(self.templates(), id@, i as int),
                None => !has_id(self.templates(), id@),
            },
    {
        let mut i: usize = 0;
        while i < self.templates.len()
            invariant
                i <= self.templates.len(),
                forall|j: int| 0 <= j < i ==> self.templates()[j].id != id@,
            decreases self.templates.len() - i,
        {
            if self.templates[i].id == *id {
                return Some(i);
            }
            i += 1;
        }
        None
    }

    /// Insert-or-replace of a row as it is, by its id. The text columns
    /// are not looked at.
    pub fn upsert_row(&mut self, row: TemplateRow)
        requires
            old(self).wf(),
        ensures
            final(self).wf(),
            final(self).templates() == upserted(old(self).templates(), row@),
            final(self).tags() == old(self).tags(),
    {
        let ghost before = self.templates();
        proof {
            lemma_upserted_keeps_unique(before, row@);
        }
        match self.position(&row.id) {
            Some(i) => {
                self.templates.set(i, row);
                proof {
                    assert(has_id(before, row@.id));
                    let expected = upserted(before, row@);
                    assert forall|k: int| 0 <= k < before.len() implies self.templates()[k]
                        == expected[k] by {
                        if k != i {
                            assert(before[k].id != row@.id);
                        }
                    }
                    assert(self.templates() =~= expected);
                }
            },
            None => {
                self.templates.push(row);
                assert(self.templates() =~= before.push(row@));
            },
        }
    }

    /// Insert-or-replace of a template, by its id. The two time stamps are
    /// stored as the caller gave them.
    pub fn upsert_template(&mut self, template: &Template) -> (r: Result<(), StoreError>)
        requires
            old(self).wf(),
        ensures
            final(self).wf(),
            r is Ok,
            final(self).templates() == upserted(old(self).templates(), row_of(template@)),
            final(self).tags() == old(self).tags(),
    {
        let row = encode_template(template);
        self.upsert_row(row);
        Ok(())
    }

    /// Insert-or-replace of each template of a batch, in order.
    pub fn batch_upsert_templates(&mut self, templates: &Vec<Template>) -> (r: Result<
        (),
        StoreError,
    >)
        requires
            old(self).wf(),
        ensures
            final(self).wf(),
            r is Ok,
            final(self).templates() == upserted_all(
                old(self).templates(),
                rows_of(templates.deep_view()),
            ),
            final(self).tags() == old(self).tags(),
    {
        let ghost batch = rows_of(templates.deep_view());
        let mut i: usize = 0;
        while i < templates.len()
            invariant
                i <= templates.len(),
                batch == rows_of(templates.deep_view()),
                self.wf(),
                self.templates() == upserted_all(old(self).templates(), batch.take(i as int)),
                self.tags() == old(self).tags(),
            decreases templates.len() - i,
        {
            let row = encode_template(&templates[i]);
            proof {
                assert(batch.take(i + 1).drop_last() =~= batch.take(i as int));
                assert(batch.take(i + 1).last() == row@);
            }
            self.upsert_row(row);
            i += 1;
        }
        assert(batch.take(templates.len() as int) =~= batch);
        Ok(())
    }

    /// The template with the id `id`. A missing id is no error: the result
    /// is then `Ok(None)`. It fails exactly where the row with that id
    /// stands for no template.
    pub fn get_template_by_id(&self, id: &str) -> (r: Result<Option<Template>, StoreError>)
        ensures
            is_lookup_of(r, found(self.templates(), id@)),
    {
        let key = id.to_owned();
        match self.position(&key) {
            Some(i) => {
                proof {
                    let c = choose|c: int| is_first_with_id(self.templates(), id@, c);
                    assert(is_first_with_id(self.templates(), id@, c));
                    assert(c == i);
                }
                match decode_template(&self.templates[i]) {
                    Ok(template) => Ok(Some(template)),
                    Err(e) => Err(e),
                }
            },
            None => {
                assert(forall|c: int| !is_first_with_id(self.templates(), id@, c));
                Ok(None)
            },
        }
    }

    /// Removes the template with the id `id`. Where no template has the
    /// id, nothing changes and the call succeeds.
    pub fn delete_template(&mut self, id: &str) -> (r: Result<(), StoreError>)
        requires
            old(self).wf(),
        ensures
            final(self).wf(),
            r is Ok,
            final(self).templates() == without_id(old(self).templates(), id@),
            final(self).tags() == old(self).tags(),
    {
        let key = id.to_owned();
        let ghost before = self.templates();
        match self.position(&key) {
            Some(i) => {
                proof {
                    lemma_without_present(before, id@, i as int);
                    lemma_remove_keeps_unique(before, i as int);
                }
                let _ = self.templates.remove(i);
                assert(self.templates() =~= before.remove(i as int));
            },
            None => {
                proof {
                    lemma_without_absent(before, id@);
                }
            },
        }
        Ok(())
    }

    /// Inverts the favorite flag of the template with the id `id` and sets
    /// its update time to `now`. Where no template has the id, nothing
    /// changes and the call succeeds.
    pub fn toggle_template_favorite_at(&mut self, id: &str, now: i64) -> (r: Result<
        (),
        StoreError,
    >)
        requires
            old(self).wf(),
        ensures
            final(self).wf(),
            r is Ok,
            final(self).templates() == toggled(old(self).templates(), id@, now),
            final(self).tags() == old(self).tags(),
    {
        let key = id.to_owned();
        let ghost before = self.templates();
        let ghost expected = toggled(before, id@, now);
        proof {
            assert forall|a: int, b: int| 0 <= a < b < expected.len() implies expected[a].id
                != expected[b].id by {
                assert(expected[a].id == before[a].id);
                assert(expected[b].id == before[b].id);
            }
        }
        match self.position(&key) {
            Some(i) => {
                let mut row = self.templates[i].duplicate();
                row.is_favorite = !row.is_favorite;
                row.updated_at = now;
                self.templates.set(i, row);
                proof {
                    assert forall|k: int| 0 <= k < before.len() implies self.templates()[k]
                        == expected[k] by {
                        if k != i {
                            assert(before[k].id != id@);
                        }
                    }
                    assert(self.templates() =~= expected);
                }
            },
            None => {
                assert(before =~= expected);
            },
        }
        Ok(())
    }

    /// Inverts the favorite flag of the template with the id `id` and sets
    /// its update time to the current time, whatever the clock says. See
    /// [`DatabaseManager::toggle_template_favorite_at`] for the same with a
    /// time of the caller.
    pub fn toggle_template_favorite(&mut self, id: &str) -> (r: Result<(), StoreError>)
        requires
            old(self).wf(),
        ensures
            final(self).wf(),
            r is Ok,
            exists|now: i64| final(self).templates() == toggled(old(self).templates(), id@, now),
            final(self).tags() == old(self).tags(),
    {
        let now = now_millis();
        self.toggle_template_favorite_at(id, now)
    }

    /// Removes every template. The tags stay.
    pub fn clear_all_templates(&mut self) -> (r: Result<(), StoreError>)
        requires
            old(self).wf(),
        ensures
            final(self).wf(),
            r is Ok,
            final(self).templates() == Seq::<RowView>::empty(),
            final(self).tags() == old(self).tags(),
    {
        self.templates.clear();
        assert(self.templates() =~= Seq::<RowView>::empty());
        Ok(())
    }

    /// The places of the template rows, most recently updated first.
    fn recency_order(&self) -> (order: Vec<usize>)
        ensures
            order.len() == self.templates.len(),
            forall|k: int| 0 <= k < order.len() ==> order[k] < self.templates.len(),
            picked(self.templates(), order@) == by_recency(self.templates()),
    {
        let ghost rows = self.templates();
        let mut order: Vec<usize> = Vec::new();
        let mut i: usize = 0;
        assert(picked(rows, order@) =~= by_recency(rows.take(0)));
        while i < self.templates.len()
            invariant
                i <= self.templates.len(),
                rows == self.templates(),
                order.len() == i,
                forall|k: int| 0 <= k < order.len() ==> order[k] < i,
                picked(rows, order@) == by_recency(rows.take(i as int)),
            decreases self.templates.len() - i,
        {
            let at: i64 = self.templates[i].updated_at;
            let ghost sorted = picked(rows, order@);
            let mut p: usize = 0;
            assert(sorted.skip(0) =~= sorted);
            while p < order.len() && self.templates[order[p]].updated_at >= at
                invariant
                    p <= order.len(),
                    rows == self.templates(),
                    i < self.templates.len(),
                    forall|k: int| 0 <= k < order.len() ==> order[k] < i,
                    sorted == picked(rows, order@),
                    recency_slot(sorted, at) == p + recency_slot(sorted.skip(p as int), at),
                decreases order.len() - p,
            {
                proof {
                    assert(sorted.skip(p as int)[0] == sorted[p as int]);
                    assert(sorted.skip(p as int).drop_first() =~= sorted.skip(p + 1));
                }
                p += 1;
            }
            proof {
                if p < order.len() {
                    assert(sorted.skip(p as int)[0] == sorted[p as int]);
                } else {
                    assert(sorted.skip(p as int).len() == 0);
                }
                assert(rows.take(i + 1).drop_last() =~= rows.take(i as int));
                assert(rows.take(i + 1).last() == rows[i as int]);
            }
            order.insert(p, i);
            assert(picked(rows, order@) =~= sorted.insert(p as int, rows[i as int]));
            i += 1;
        }
        assert(rows.take(self.templates.len() as int) =~= rows);
        order
    }

    /// Every template, most recently updated first; templates updated at
    /// the same time in storage order. It fails exactly where a row stands
    /// for no template.
    pub fn get_all_templates(&self) -> (r: Result<Vec<Template>, StoreError>)
        ensures
            is_listing_of(r, by_recency(self.templates())),
    {
        let order = self.recency_order();
        let ghost sorted = by_recency(self.templates());
        let mut out: Vec<Template> = Vec::new();
        let mut k: usize = 0;
        assert(out.deep_view() =~= decoded(sorted.take(0)));
        while k < order.len()
            invariant
                k <= order.len(),
                order.len() == self.templates.len(),
                forall|q: int| 0 <= q < order.len() ==> order[q] < self.templates.len(),
                sorted == picked(self.templates(), order@),
                sorted == by_recency(self.templates()),
                all_decode(sorted.take(k as int)),
                out.deep_view() == decoded(sorted.take(k as int)),
            decreases order.len() - k,
        {
            match decode_template(&self.templates[order[k]]) {
                Ok(template) => {
                    let ghost before = out.deep_view();
                    let ghost view = template@;
                    out.push(template);
                    proof {
                        assert(sorted.take(k + 1) =~= sorted.take(k as int).push(sorted[k as int]));
                        assert(out.deep_view() =~= before.push(view));
                        assert(out.deep_view() =~= decoded(sorted.take(k + 1)));
                    }
                },
                Err(e) => {
                    assert(template_of(sorted[k as int]) is None);
                    return Err(e);
                },
            }
            k += 1;
        }
        assert(sorted.take(order.len() as int) =~= sorted);
        Ok(out)
    }

    /// The templates whose title, or whose stored sections text, matches
    /// the keyword between two `%`, most recently updated first. The
    /// keyword is used as it is: a `%` or `_` in it is a wildcard. It fails
    /// exactly where a hit stands for no template.
    pub fn search_templates(&self, keyword: &str) -> (r: Result<Vec<Template>, StoreError>)
        ensures
            is_listing_of(r, hits(self.templates(), keyword@)),
    {
        let word = chars_of(keyword);
        let pattern = make_search_pattern(&word);
        let order = self.recency_order();
        let ghost sorted = by_recency(self.templates());
        let ghost test = hit_for(keyword@);
        let mut out: Vec<Template> = Vec::new();
        let mut k: usize = 0;
        proof {
            assert(sorted.take(0) =~= Seq::<RowView>::empty());
            reveal(Seq::filter);
            assert(sorted.take(0).filter(test) =~= Seq::<RowView>::empty());
            assert(out.deep_view() =~= decoded(sorted.take(0).filter(test)));
        }
        while k < order.len()
            invariant
                k <= order.len(),
                order.len() == self.templates.len(),
                forall|q: int| 0 <= q < order.len() ==> order[q] < self.templates.len(),
                sorted == picked(self.templates(), order@),
                sorted == by_recency(self.templates()),
                test == hit_for(keyword@),
                word@ == keyword@,
                pattern@ == crate::pattern::search_pattern(keyword@),
                all_decode(sorted.take(k as int).filter(test)),
                out.deep_view() == decoded(sorted.take(k as int).filter(test)),
            decreases order.len() - k,
        {
            let row = &self.templates[order[k]];
            let title = chars_of(row.title.as_str());
            let sections = chars_of(row.sections.as_str());
            let hit = matches_pattern(&title, &pattern) || matches_pattern(&sections, &pattern);
            let ghost chosen = sorted.take(k as int).filter(test);
            proof {
                assert(sorted.take(k + 1) =~= sorted.take(k as int).push(sorted[k as int]));
                sorted.take(k as int).lemma_filter_push(sorted[k as int], test);
                assert(hit == test(sorted[k as int]));
            }
            if hit {
                match decode_template(row) {
                    Ok(template) => {
                        let ghost before = out.deep_view();
                        let ghost view = template@;
                        out.push(template);
                        proof {
                            assert(out.deep_view() =~= before.push(view));
                            assert(out.deep_view() =~= decoded(chosen.push(sorted[k as int])));
                        }
                    },
                    Err(e) => {
                        proof {
                            let part = sorted.take(k + 1).filter(test);
                            assert(part == chosen.push(sorted[k as int]));
                            assert(sorted =~= sorted.take(k + 1) + sorted.skip(k + 1));
                            Seq::filter_distributes_over_add(
                                sorted.take(k + 1),
                                sorted.skip(k + 1),
                                test,
                            );
                            let whole = sorted.filter(test);
                            assert(whole[chosen.len() as int] == sorted[k as int]);
                            assert(template_of(whole[chosen.len() as int]) is None);
                        }
                        return Err(e);
                    },
                }
            }
            k += 1;
        }
        assert(sorted.take(order.len() as int) =~= sorted);
        Ok(out)
    }

    /// Each distinct disease label with the number of templates that have
    /// it, in the order of the labels. It fails exactly where a number does
    /// not fit in an `i32`.
    pub fn get_all_diseases(&self) -> (r: Result<Vec<(String, i32)>, StoreError>)
        ensures
            is_count_of(r, diseases(self.templates())),
    {
        let mut labels: Vec<String> = Vec::new();
        let mut i: usize = 0;
        while i < self.templates.len()
            invariant
                i <= self.templates.len(),
                labels.len() == i,
                forall|k: int| 0 <= k < i ==> labels[k]@ == self.templates()[k].disease,
            decreases self.templates.len() - i,
        {
            labels.push(self.templates[i].disease.clone());
            i += 1;
        }
        assert(labels.deep_view() =~= diseases(self.templates()));
        count_labels(&labels)
    }

    /// Each distinct type label with the number of templates that have it,
    /// in the order of the labels. It fails exactly where a number does not
    /// fit in an `i32`.
    pub fn get_all_template_types(&self) -> (r: Result<Vec<(String, i32)>, StoreError>)
        ensures
            is_count_of(r, template_types(self.templates())),
    {
        let mut labels: Vec<String> = Vec::new();
        let mut i: usize = 0;
        while i < self.templates.len()
            invariant
                i <= self.templates.len(),
                labels.len() == i,
                forall|k: int| 0 <= k < i ==> labels[k]@ == self.templates()[k].template_type,
            decreases self.templates.len() - i,
        {
            labels.push(self.templates[i].template_type.clone());
            i += 1;
        }
        assert(labels.deep_view() =~= template_types(self.templates()));
        count_labels(&labels)
    }

    /// The row with the id `id` as the table holds it, if there is one.
    pub fn template_row(&self, id: &str) -> (r: Option<TemplateRow>)
        ensures
            match r {
                Some(row) => found(self.templates(), id@) == Some(row@),
                None => found(self.templates(), id@) is None,
            },
    {
        let key = id.to_owned();
        match self.position(&key) {
            Some(i) => {
                proof {
                    let c = choose|c: int| is_first_with_id(self.templates(), id@, c);
                    assert(is_first_with_id(self.templates(), id@, c));
                    assert(c == i);
                }
                Some(self.templates[i].duplicate())
            },
            None => {
                assert(forall|c: int| !is_first_with_id(self.templates(), id@, c));
                None
            },
        }
    }

    /// The place of the tag with the id `id`.
    fn tag_position(&self, id: &String) -> (r: Option<usize>)
        ensures
            match r {
                Some(i) => 0 <= i < self.tags().len() && self.tags()[i as int].id == id@,
                None => !has_tag_id(self.tags(), id@),
            },
    {
        let mut i: usize = 0;
        while i < self.tags.len()
            invariant
                i <= self.tags.len(),
                forall|j: int| 0 <= j < i ==> self.tags()[j].id != id@,
            decreases self.tags.len() - i,
        {
            if self.tags[i].id == *id {
                return Some(i);
            }
            i += 1;
        }
        None
    }

    /// Insert-or-replace of a tag, by its id.
    pub fn upsert_tag(&mut self, tag: &Tag) -> (r: Result<(), StoreError>)
        requires
            old(self).wf(),
        ensures
            final(self).wf(),
            r is Ok,
            final(self).tags() == upserted_tag(old(self).tags(), tag@),
            final(self).templates() == old(self).templates(),
    {
        let ghost before = self.tags();
        proof {
            lemma_upserted_tag_keeps_unique(before, tag@);
        }
        let copy = tag.duplicate();
        match self.tag_position(&tag.id) {
            Some(i) => {
                self.tags.set(i, copy);
                proof {
                    assert(has_tag_id(before, tag@.id));
                    let expected = upserted_tag(before, tag@);
                    assert forall|k: int| 0 <= k < before.len() implies self.tags()[k]
                        == expected[k] by {
                        if k != i {
                            assert(before[k].id != tag@.id);
                        }
                    }
                    assert(self.tags() =~= expected);
                }
            },
            None => {
                self.tags.push(copy);
                assert(self.tags() =~= before.push(tag@));
            },
        }
        Ok(())
    }

    /// Every tag, in the order of the names; tags with the same name in
    /// storage order.
    pub fn get_all_tags(&self) -> (r: Result<Vec<Tag>, StoreError>)
        ensures
            is_tags_of(r, by_name(self.tags())),
    {
        let ghost tags = self.tags();
        let mut names: Vec<Vec<char>> = Vec::new();
        let mut i: usize = 0;
        while i < self.tags.len()
            invariant
                i <= self.tags.len(),
                names.len() == i,
                forall|k: int| 0 <= k < i ==> names[k]@ == self.tags()[k].name,
            decreases self.tags.len() - i,
        {
            names.push(chars_of(self.tags[i].name.as_str()));
            i += 1;
        }
        let mut order: Vec<usize> = Vec::new();
        let mut i: usize = 0;
        assert(picked(tags, order@) =~= by_name(tags.take(0)));
        while i < self.tags.len()
            invariant
                i <= self.tags.len(),
                tags == self.tags(),
                names.len() == self.tags.len(),
                forall|k: int| 0 <= k < names.len() ==> names[k]@ == tags[k].name,
                order.len() == i,
                forall|k: int| 0 <= k < order.len() ==> order[k] < i,
                picked(tags, order@) == by_name(tags.take(i as int)),
            decreases self.tags.len() - i,
        {
            let ghost sorted = picked(tags, order@);
            let ghost name = tags[i as int].name;
            let mut p: usize = 0;
            assert(sorted.skip(0) =~= sorted);
            while p < order.len() && !text_less(&names[i], &names[order[p]])
                invariant
                    p <= order.len(),
                    i < names.len(),
                    name == tags[i as int].name,
                    names.len() == tags.len(),
                    forall|k: int| 0 <= k < names.len() ==> names[k]@ == tags[k].name,
                    forall|k: int| 0 <= k < order.len() ==> order[k] < i,
                    sorted == picked(tags, order@),
                    name_slot(sorted, name) == p + name_slot(sorted.skip(p as int), name),
                decreases order.len() - p,
            {
                proof {
                    assert(sorted.skip(p as int)[0] == sorted[p as int]);
                    assert(sorted.skip(p as int).drop_first() =~= sorted.skip(p + 1));
                }
                p += 1;
            }
            proof {
                if p < order.len() {
                    assert(sorted.skip(p as int)[0] == sorted[p as int]);
                } else {
                    assert(sorted.skip(p as int).len() == 0);
                }
                assert(tags.take(i + 1).drop_last() =~= tags.take(i as int));
                assert(tags.take(i + 1).last() == tags[i as int]);
            }
            order.insert(p, i);
            assert(picked(tags, order@) =~= sorted.insert(p as int, tags[i as int]));
            i += 1;
        }
        assert(tags.take(self.tags.len() as int) =~= tags);
        let mut out: Vec<Tag> = Vec::new();
        let mut k: usize = 0;
        while k < order.len()
            invariant
                k <= order.len(),
                tags == self.tags(),
                forall|q: int| 0 <= q < order.len() ==> order[q] < self.tags.len(),
                out.len() == k,
                forall|q: int| 0 <= q < k ==> out[q]@ == picked(tags, order@)[q],
            decreases order.len() - k,
        {
            out.push(self.tags[order[k]].duplicate());
            k += 1;
        }
        assert(out.deep_view() =~= picked(tags, order@));
        Ok(out)
    }

    /// Removes every tag. The templates stay, and with them their
    /// references to tags.
    pub fn reset_tags(&mut self) -> (r: Result<(), StoreError>)
        requires
            old(self).wf(),
        ensures
            final(self).wf(),
            r is Ok,
            final(self).tags() == Seq::<TagView>::empty(),
            final(self).templates() == old(self).templates(),
    {
        self.tags.clear();
        assert(self.tags() =~= Seq::<TagView>::empty());
        Ok(())
    }
}

} // verus!
