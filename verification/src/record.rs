//! The records of the catalog and their mathematical views.

use vstd::prelude::*;

verus! {

/// One titled block of a template's body.
#[derive(Debug, Clone, PartialEq, Eq)]
pub struct TemplateSection {
    pub title: String,
    pub content: String,
}

/// A report template.
#[derive(Debug, Clone, PartialEq, Eq)]
pub struct Template {
    pub id: String,
    pub title: String,
    pub sections: Vec<TemplateSection>,
    pub disease: String,
    pub template_type: String,
    pub tags: Vec<String>,
    pub created_at: i64,
    pub updated_at: i64,
    pub is_favorite: bool,
}

/// A named, colored label that templates refer to by id.
#[derive(Debug, Clone, PartialEq, Eq)]
pub struct Tag {
    pub id: String,
    pub name: String,
    pub color: String,
}

/// A template as the tables hold it: every column a plain value, the two
/// nested fields as compact JSON text.
#[derive(Debug, Clone, PartialEq, Eq)]
pub struct TemplateRow {
    pub id: String,
    pub title: String,
    pub sections: String,
    pub disease: String,
    pub template_type: String,
    pub tags: String,
    pub created_at: i64,
    pub updated_at: i64,
    pub is_favorite: bool,
}

/// The view of a [`TemplateSection`].
pub struct SectionView {
    pub title: Seq<char>,
    pub content: Seq<char>,
}

/// The view of a [`Template`].
pub struct TemplateView {
    pub id: Seq<char>,
    pub title: Seq<char>,
    pub sections: Seq<SectionView>,
    pub disease: Seq<char>,
    pub template_type: Seq<char>,
    pub tags: Seq<Seq<char>>,
    pub created_at: i64,
    pub updated_at: i64,
    pub is_favorite: bool,
}

/// The view of a [`Tag`].
pub struct TagView {
    pub id: Seq<char>,
    pub name: Seq<char>,
    pub color: Seq<char>,
}

/// The view of a [`TemplateRow`].
pub struct RowView {
    pub id: Seq<char>,
    pub title: Seq<char>,
    pub sections: Seq<char>,
    pub disease: Seq<char>,
    pub template_type: Seq<char>,
    pub tags: Seq<char>,
    pub created_at: i64,
    pub updated_at: i64,
    pub is_favorite: bool,
}

impl View for TemplateSection {
    type V = SectionView;

    open spec fn view(&self) -> SectionView {
        SectionView { title: self.title@, content: self.content@ }
    }
}

impl DeepView for TemplateSection {
    type V = SectionView;

    open spec fn deep_view(&self) -> SectionView {
        self@
    }
}

impl View for Template {
    type V = TemplateView;

    open spec fn view(&self) -> TemplateView {
        TemplateView {
            id: self.id@,
            title: self.title@,
            sections: self.sections.deep_view(),
            disease: self.disease@,
            template_type: self.template_type@,
            tags: self.tags.deep_view(),
            created_at: self.created_at,
            updated_at: self.updated_at,
            is_favorite: self.is_favorite,
        }
    }
}

impl DeepView for Template {
    type V = TemplateView;

    open spec fn deep_view(&self) -> TemplateView {
        self@
    }
}

impl View for Tag {
    type V = TagView;

    open spec fn view(&self) -> TagView {
        TagView { id: self.id@, name: self.name@, color: self.color@ }
    }
}

impl DeepView for Tag {
    type V = TagView;

    open spec fn deep_view(&self) -> TagView {
        self@
    }
}

impl View for TemplateRow {
    type V = RowView;

    open spec fn view(&self) -> RowView {
        RowView {
            id: self.id@,
            title: self.title@,
            sections: self.sections@,
            disease: self.disease@,
            template_type: self.template_type@,
            tags: self.tags@,
            created_at: self.created_at,
            updated_at: self.updated_at,
            is_favorite: self.is_favorite,
        }
    }
}

impl DeepView for TemplateRow {
    type V = RowView;

    open spec fn deep_view(&self) -> RowView {
        self@
    }
}

impl Tag {
    /// A copy of this tag.
    pub fn duplicate(&self) -> (r: Tag)
        ensures
            r@ == self@,
    {
        Tag { id: self.id.clone(), name: self.name.clone(), color: self.color.clone() }
    }
}

impl TemplateRow {
    /// A copy of this row.
    pub fn duplicate(&self) -> (r: TemplateRow)
        ensures
            r@ == self@,
    {
        TemplateRow {
            id: self.id.clone(),
            title: self.title.clone(),
            sections: self.sections.clone(),
            disease: self.disease.clone(),
            template_type: self.template_type.clone(),
            tags: self.tags.clone(),
            created_at: self.created_at,
            updated_at: self.updated_at,
            is_favorite: self.is_favorite,
        }
    }
}

} // verus!
