//! The handle through which callers reach the catalog. It is in one of two
//! states: not yet initialized, or ready. Every operation on a handle that
//! is not ready fails with [`StoreError::NotInitialized`] and changes
//! nothing; nothing but the request to initialize makes it ready.

use vstd::prelude::*;
use crate::codec::row_of;
use crate::error::StoreError;
use crate::record::{RowView, Tag, TagView, Template};
use crate::store::{now_millis, rows_of, DatabaseManager};
use crate::table::{
    by_name, by_recency, diseases, found, hits, is_count_of, is_listing_of, is_lookup_of,
    is_tags_of, template_types, toggled, upserted, upserted_all, upserted_tag, without_id,
};

verus! {

/// The handle: no catalog yet, or the one live catalog.
pub struct StoreHandle {
    catalog: Option<DatabaseManager>,
}

impl StoreHandle {
    /// Whether the handle is ready.
    pub closed spec fn is_ready(&self) -> bool {
        self.catalog is Some
    }

    /// The template table of the catalog; empty while the handle is not
    /// ready.
    pub closed spec fn templates(&self) -> Seq<RowView> {
        match self.catalog {
            Some(catalog) => catalog.templates(),
            None => Seq::empty(),
        }
    }

    /// The tag table of the catalog; empty while the handle is not ready.
    pub closed spec fn tags(&self) -> Seq<TagView> {
        match self.catalog {
            Some(catalog) => catalog.tags(),
            None => Seq::empty(),
        }
    }

    /// The invariant of the handle: its catalog, if it has one, meets the
    /// invariant of catalogs.
    pub closed spec fn wf(&self) -> bool {
        match self.catalog {
            Some(catalog) => catalog.wf(),
            None => true,
        }
    }

    /// The handle and `other` are in the same state, with the same tables.
    pub open spec fn same_as(&self, other: &StoreHandle) -> bool {
        &&& self.is_ready() == other.is_ready()
        &&& self.templates() == other.templates()
        &&& self.tags() == other.tags()
    }

    /// A handle that is not initialized.
    pub fn new() -> (handle: StoreHandle)
        ensures
            handle.wf(),
            !handle.is_ready(),
    {
        StoreHandle { catalog: None }
    }

    /// Whether the handle is ready.
    pub fn ready(&self) -> (r: bool)
        ensures
            r == self.is_ready(),
    {
        self.catalog.is_some()
    }

    /// The request to initialize, with the outcome of opening the catalog.
    /// A handle that is ready stays as it is, whatever `opened` holds, and
    /// the request succeeds. A handle that is not ready takes the catalog
    /// and is ready from then on; where opening failed, it stays as it is
    /// and the request fails with the failure of the opening.
    pub fn init_database(&mut self, opened: Result<DatabaseManager, StoreError>) -> (r: Result<
        (),
        StoreError,
    >)
        requires
            old(self).wf(),
            opened matches Ok(catalog) ==> catalog.wf(),
        ensures
            final(self).wf(),
            old(self).is_ready() ==> r is Ok && final(self).same_as(old(self)),
            !old(self).is_ready() ==> match opened {
                Ok(catalog) => {
                    &&& r is Ok
                    &&& final(self).is_ready()
                    &&& final(self).templates() == catalog.templates()
                    &&& final(self).tags() == catalog.tags()
                },
                Err(e) => r == Err::<(), StoreError>(e) && final(self).same_as(old(self)),
            },
    {
        if self.catalog.is_some() {
            return Ok(());
        }
        match opened {
            Ok(catalog) => {
                self.catalog = Some(catalog);
                Ok(())
            },
            Err(e) => Err(e),
        }
    }

    /// Every template, most recently updated first.
    pub fn get_all_templates(&self) -> (r: Result<Vec<Template>, StoreError>)
        ensures
            !self.is_ready() ==> r matches Err(StoreError::NotInitialized),
            self.is_ready() ==> is_listing_of(r, by_recency(self.templates())),
    {
        match &self.catalog {
            Some(catalog) => catalog.get_all_templates(),
            None => Err(StoreError::NotInitialized),
        }
    }

    /// The template with the id `id`, or `Ok(None)` where no template has it.
    pub fn get_template_by_id(&self, id: &str) -> (r: Result<Option<Template>, StoreError>)
        ensures
            !self.is_ready() ==> r matches Err(StoreError::NotInitialized),
            self.is_ready() ==> is_lookup_of(r, found(self.templates(), id@)),
    {
        match &self.catalog {
            Some(catalog) => catalog.get_template_by_id(id),
            None => Err(StoreError::NotInitialized),
        }
    }

    /// The templates whose title, or whose stored sections text, matches the
    /// keyword between two `%`, most recently updated first.
    pub fn search_templates(&self, keyword: &str) -> (r: Result<Vec<Template>, StoreError>)
        ensures
            !self.is_ready() ==> r matches Err(StoreError::NotInitialized),
            self.is_ready() ==> is_listing_of(r, hits(self.templates(), keyword@)),
    {
        match &self.catalog {
            Some(catalog) => catalog.search_templates(keyword),
            None => Err(StoreError::NotInitialized),
        }
    }

    /// Each distinct disease label with the number of templates that have it,
    /// in the order of the labels.
    pub fn get_all_diseases(&self) -> (r: Result<Vec<(String, i32)>, StoreError>)
        ensures
            !self.is_ready() ==> r matches Err(StoreError::NotInitialized),
            self.is_ready() ==> is_count_of(r, diseases(self.templates())),
    {
        match &self.catalog {
            Some(catalog) => catalog.get_all_diseases(),
            None => Err(StoreError::NotInitialized),
        }
    }

    /// Each distinct type label with the number of templates that have it, in
    /// the order of the labels.
    pub fn get_all_template_types(&self) -> (r: Result<Vec<(String, i32)>, StoreError>)
        ensures
            !self.is_ready() ==> r matches Err(StoreError::NotInitialized),
            self.is_ready() ==> is_count_of(r, template_types(self.templates())),
    {
        match &self.catalog {
            Some(catalog) => catalog.get_all_template_types(),
            None => Err(StoreError::NotInitialized),
        }
    }

    /// Every tag, in the order of the names.
    pub fn get_all_tags(&self) -> (r: Result<Vec<Tag>, StoreError>)
        ensures
            !self.is_ready() ==> r matches Err(StoreError::NotInitialized),
            self.is_ready() ==> is_tags_of(r, by_name(self.tags())),
    {
        match &self.catalog {
            Some(catalog) => catalog.get_all_tags(),
            None => Err(StoreError::NotInitialized),
        }
    }

    /// Insert-or-replace of a template, by its id.
    pub fn save_template(&mut self, template: &Template) -> (r: Result<(), StoreError>)
        requires
            old(self).wf(),
        ensures
            final(self).wf(),
            final(self).is_ready() == old(self).is_ready(),
            !old(self).is_ready() ==> {
                &&& r matches Err(StoreError::NotInitialized)
                &&& final(self).same_as(old(self))
            },
            old(self).is_ready() ==> {
                &&& r is Ok
                &&& final(self).templates() == upserted(old(self).templates(), row_of(template@))
                &&& final(self).tags() == old(self).tags()
            },
    {
        match &mut self.catalog {
            Some(catalog) => catalog.upsert_template(template),
            None => Err(StoreError::NotInitialized),
        }
    }

    /// Insert-or-replace of each template of a batch, in order.
    pub fn import_templates(&mut self, templates: &Vec<Template>) -> (r: Result<(), StoreError>)
        requires
            old(self).wf(),
        ensures
            final(self).wf(),
            final(self).is_ready() == old(self).is_ready(),
            !old(self).is_ready() ==> {
                &&& r matches Err(StoreError::NotInitialized)
                &&& final(self).same_as(old(self))
            },
            old(self).is_ready() ==> {
                &&& r is Ok
                &&& final(self).templates() == upserted_all(
                    old(self).templates(),
                    rows_of(templates.deep_view()),
                )
                &&& final(self).tags() == old(self).tags()
            },
    {
        match &mut self.catalog {
            Some(catalog) => catalog.batch_upsert_templates(templates),
            None => Err(StoreError::NotInitialized),
        }
    }

    /// Removes the template with the id `id`, if there is one.
    pub fn delete_template(&mut self, id: &str) -> (r: Result<(), StoreError>)
        requires
            old(self).wf(),
        ensures
            final(self).wf(),
            final(self).is_ready() == old(self).is_ready(),
            !old(self).is_ready() ==> {
                &&& r matches Err(StoreError::NotInitialized)
                &&& final(self).same_as(old(self))
            },
            old(self).is_ready() ==> {
                &&& r is Ok
                &&& final(self).templates() == without_id(old(self).templates(), id@)
                &&& final(self).tags() == old(self).tags()
            },
    {
        match &mut self.catalog {
            Some(catalog) => catalog.delete_template(id),
            None => Err(StoreError::NotInitialized),
        }
    }

    /// Inverts the favorite flag of the template with the id `id` and sets
    /// its update time to `now`.
    pub fn toggle_template_favorite_at(&mut self, id: &str, now: i64) -> (r: Result<(), StoreError>)
        requires
            old(self).wf(),
        ensures
            final(self).wf(),
            final(self).is_ready() == old(self).is_ready(),
            !old(self).is_ready() ==> {
                &&& r matches Err(StoreError::NotInitialized)
                &&& final(self).same_as(old(self))
            },
            old(self).is_ready() ==> {
                &&& r is Ok
                &&& final(self).templates() == toggled(old(self).templates(), id@, now)
                &&& final(self).tags() == old(self).tags()
            },
    {
        match &mut self.catalog {
            Some(catalog) => catalog.toggle_template_favorite_at(id, now),
            None => Err(StoreError::NotInitialized),
        }
    }

    /// Inverts the favorite flag of the template with the id `id` and sets
    /// its update time to the current time, whatever the clock says.
    pub fn toggle_template_favorite(&mut self, id: &str) -> (r: Result<(), StoreError>)
        requires
            old(self).wf(),
        ensures
            final(self).wf(),
            final(self).is_ready() == old(self).is_ready(),
            !old(self).is_ready() ==> {
                &&& r matches Err(StoreError::NotInitialized)
                &&& final(self).same_as(old(self))
            },
            old(self).is_ready() ==> {
                &&& r is Ok
                &&& (exists|now: i64|
                    final(self).templates() == toggled(old(self).templates(), id@, now))
                &&& final(self).tags() == old(self).tags()
            },
    {
        let now = now_millis();
        self.toggle_template_favorite_at(id, now)
    }

    /// Removes every template. The tags stay.
    pub fn clear_templates(&mut self) -> (r: Result<(), StoreError>)
        requires
            old(self).wf(),
        ensures
            final(self).wf(),
            final(self).is_ready() == old(self).is_ready(),
            !old(self).is_ready() ==> {
                &&& r matches Err(StoreError::NotInitialized)
                &&& final(self).same_as(old(self))
            },
            old(self).is_ready() ==> {
                &&& r is Ok
                &&& final(self).templates() == Seq::<RowView>::empty()
                &&& final(self).tags() == old(self).tags()
            },
    {
        match &mut self.catalog {
            Some(catalog) => catalog.clear_all_templates(),
            None => Err(StoreError::NotInitialized),
        }
    }

    /// Insert-or-replace of a tag, by its id.
    pub fn save_tag(&mut self, tag: &Tag) -> (r: Result<(), StoreError>)
        requires
            old(self).wf(),
        ensures
            final(self).wf(),
            final(self).is_ready() == old(self).is_ready(),
            !old(self).is_ready() ==> {
                &&& r matches Err(StoreError::NotInitialized)
                &&& final(self).same_as(old(self))
            },
            old(self).is_ready() ==> {
                &&& r is Ok
                &&& final(self).tags() == upserted_tag(old(self).tags(), tag@)
                &&& final(self).templates() == old(self).templates()
            },
    {
        match &mut self.catalog {
            Some(catalog) => catalog.upsert_tag(tag),
            None => Err(StoreError::NotInitialized),
        }
    }

    /// Removes every tag. The templates stay.
    pub fn reset_tags(&mut self) -> (r: Result<(), StoreError>)
        requires
            old(self).wf(),
        ensures
            final(self).wf(),
            final(self).is_ready() == old(self).is_ready(),
            !old(self).is_ready() ==> {
                &&& r matches Err(StoreError::NotInitialized)
                &&& final(self).same_as(old(self))
            },
            old(self).is_ready() ==> {
                &&& r is Ok
                &&& final(self).tags() == Seq::<TagView>::empty()
                &&& final(self).templates() == old(self).templates()
            },
    {
        match &mut self.catalog {
            Some(catalog) => catalog.reset_tags(),
            None => Err(StoreError::NotInitialized),
        }
    }
}

} // verus!
