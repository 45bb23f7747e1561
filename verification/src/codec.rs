//! The record codec: the stored text of a template's nested fields, and
//! the conversion between a template and its flat row.
//!
//! A list of tag ids is stored as a JSON array of string literals, a list
//! of sections as a JSON array of objects with the members `title` and
//! `content`, in that order. The text is compact: no white space, and one
//! text per value. Reading accepts that text and nothing else.

use vstd::prelude::*;
use crate::error::StoreError;
use crate::literal::{
    lemma_occurs_split, lemma_quote_of_read_literal, lemma_quote_opens, lemma_read_literal_of_quote, push_quoted,
    quote, read_literal, read_literal_at,
};
use crate::record::{RowView, SectionView, Template, TemplateRow, TemplateSection, TemplateView};
use crate::text::{chars_of, occurs_at};

verus! {

/// What follows the first tag id in the stored text: each further id
/// behind a comma, then the closing bracket.
pub open spec fn tags_tail(tags: Seq<Seq<char>>) -> Seq<char>
    decreases tags.len(),
{
    if tags.len() == 0 {
        seq![']']
    } else {
        seq![','] + (quote(tags[0]) + tags_tail(tags.drop_first()))
    }
}

/// The stored text of a list of tag ids.
pub open spec fn tags_text(tags: Seq<Seq<char>>) -> Seq<char> {
    if tags.len() == 0 {
        seq!['[', ']']
    } else {
        seq!['['] + (quote(tags[0]) + tags_tail(tags.drop_first()))
    }
}

/// The opening of a section object, up to the literal of its title.
pub open spec fn title_key() -> Seq<char> {
    seq!['{', '"', 't', 'i', 't', 'l', 'e', '"', ':']
}

/// What stands between the two literals of a section object.
pub open spec fn content_key() -> Seq<char> {
    seq![',', '"', 'c', 'o', 'n', 't', 'e', 'n', 't', '"', ':']
}

/// The stored text of one section.
pub open spec fn section_text(s: SectionView) -> Seq<char> {
    title_key() + (quote(s.title) + (content_key() + (quote(s.content) + seq!['}'])))
}

/// What follows the first section in the stored text: each further section
/// behind a comma, then the closing bracket.
pub open spec fn sections_tail(sections: Seq<SectionView>) -> Seq<char>
    decreases sections.len(),
{
    if sections.len() == 0 {
        seq![']']
    } else {
        seq![','] + (section_text(sections[0]) + sections_tail(sections.drop_first()))
    }
}

/// The stored text of a list of sections.
pub open spec fn sections_text(sections: Seq<SectionView>) -> Seq<char> {
    if sections.len() == 0 {
        seq!['[', ']']
    } else {
        seq!['['] + (section_text(sections[0]) + sections_tail(sections.drop_first()))
    }
}

/// The tag ids whose tail text starts at position `i` of `t` and ends with
/// `t`.
pub open spec fn read_tags_tail(t: Seq<char>, i: int) -> Option<Seq<Seq<char>>>
    decreases t.len() - i,
{
    if !(0 <= i < t.len()) {
        None
    } else if t[i] == ']' {
        if i + 1 == t.len() {
            Some(Seq::empty())
        } else {
            None
        }
    } else if t[i] == ',' {
        match read_literal(t, i + 1) {
            Some((s, j)) => if i < j <= t.len() {
                match read_tags_tail(t, j) {
                    Some(rest) => Some(seq![s] + rest),
                    None => None,
                }
            } else {
                None
            },
            None => None,
        }
    } else {
        None
    }
}

/// The list of tag ids that `t` is the stored text of; `None` where `t` is
/// the stored text of no list.
pub open spec fn tags_of_text(t: Seq<char>) -> Option<Seq<Seq<char>>> {
    if t.len() >= 2 && t[0] == '[' {
        if t[1] == ']' {
            if t.len() == 2 {
                Some(Seq::empty())
            } else {
                None
            }
        } else {
            match read_literal(t, 1) {
                Some((s, j)) => match read_tags_tail(t, j) {
                    Some(rest) => Some(seq![s] + rest),
                    None => None,
                },
                None => None,
            }
        }
    } else {
        None
    }
}

/// The section whose text starts at position `i` of `t`, with the position
/// behind it.
pub open spec fn read_section(t: Seq<char>, i: int) -> Option<(SectionView, int)> {
    if !occurs_at(t, title_key(), i) {
        None
    } else {
        match read_literal(t, i + 9) {
            Some((title, j)) => if !occurs_at(t, content_key(), j) {
                None
            } else {
                match read_literal(t, j + 11) {
                    Some((content, k)) => if 0 <= k < t.len() && t[k] == '}' {
                        Some((SectionView { title, content }, k + 1))
                    } else {
                        None
                    },
                    None => None,
                }
            },
            None => None,
        }
    }
}

/// The sections whose tail text starts at position `i` of `t` and ends
/// with `t`.
pub open spec fn read_sections_tail(t: Seq<char>, i: int) -> Option<Seq<SectionView>>
    decreases t.len() - i,
{
    if !(0 <= i < t.len()) {
        None
    } else if t[i] == ']' {
        if i + 1 == t.len() {
            Some(Seq::empty())
        } else {
            None
        }
    } else if t[i] == ',' {
        match read_section(t, i + 1) {
            Some((s, j)) => if i < j <= t.len() {
                match read_sections_tail(t, j) {
                    Some(rest) => Some(seq![s] + rest),
                    None => None,
                }
            } else {
                None
            },
            None => None,
        }
    } else {
        None
    }
}

/// The list of sections that `t` is the stored text of; `None` where `t`
/// is the stored text of no list.
pub open spec fn sections_of_text(t: Seq<char>) -> Option<Seq<SectionView>> {
    if t.len() >= 2 && t[0] == '[' {
        if t[1] == ']' {
            if t.len() == 2 {
                Some(Seq::empty())
            } else {
                None
            }
        } else {
            match read_section(t, 1) {
                Some((s, j)) => match read_sections_tail(t, j) {
                    Some(rest) => Some(seq![s] + rest),
                    None => None,
                },
                None => None,
            }
        }
    } else {
        None
    }
}

/// The parts of a text that opens with a bracket, then holds `first`, then
/// `tail`.
proof fn lemma_bracketed(t: Seq<char>, first: Seq<char>, tail: Seq<char>)
    requires
        t == seq!['['] + (first + tail),
    ensures
        t.len() == 1int + first.len() + tail.len(),
        t[0] == '[',
        first.len() > 0 ==> t[1] == first[0],
        occurs_at(t, first, 1),
        occurs_at(t, tail, 1int + first.len()),
{
    assert(occurs_at(t, t, 0));
    lemma_occurs_split(t, seq!['['], first + tail, 0);
    lemma_occurs_split(t, first, tail, 1);
    if first.len() > 0 {
        assert(t[1int + 0] == first[0]);
    }
}

/// A text in which `first` stands behind an opening bracket and `tail`
/// behind that, up to the end, is made of these three parts.
proof fn lemma_bracketed_whole(t: Seq<char>, first: Seq<char>, tail: Seq<char>)
    requires
        t.len() == 1int + first.len() + tail.len(),
        t[0] == '[',
        occurs_at(t, first, 1),
        occurs_at(t, tail, 1int + first.len()),
    ensures
        t == seq!['['] + (first + tail),
{
    let u = seq!['['] + (first + tail);
    lemma_occurs_split(t, first, tail, 1);
    assert(occurs_at(t, seq!['['], 0));
    lemma_occurs_split(t, seq!['['], first + tail, 0);
    assert forall|k: int| 0 <= k < t.len() implies t[k] == u[k] by {
        assert(t[0 + k] == u[k]);
    }
    assert(t =~= u);
}

proof fn lemma_read_tags_tail_of_text(t: Seq<char>, i: int, tags: Seq<Seq<char>>)
    requires
        occurs_at(t, tags_tail(tags), i),
        i + tags_tail(tags).len() == t.len(),
    ensures
        read_tags_tail(t, i) == Some(tags),
    decreases tags.len(),
{
    if tags.len() == 0 {
        assert(t[i + 0] == seq![']'][0]);
        assert(tags =~= Seq::empty());
    } else {
        let rest = tags.drop_first();
        lemma_occurs_split(t, seq![','], quote(tags[0]) + tags_tail(rest), i);
        lemma_occurs_split(t, quote(tags[0]), tags_tail(rest), i + 1);
        assert(t[i + 0] == seq![','][0]);
        lemma_read_literal_of_quote(t, i + 1, tags[0]);
        lemma_read_tags_tail_of_text(t, i + 1 + quote(tags[0]).len(), rest);
        assert(seq![tags[0]] + rest =~= tags);
    }
}

proof fn lemma_text_of_read_tags_tail(t: Seq<char>, i: int)
    ensures
        read_tags_tail(t, i) matches Some(tags) ==> occurs_at(t, tags_tail(tags), i) && i
            + tags_tail(tags).len() == t.len(),
    decreases t.len() - i,
{
    if let Some(tags) = read_tags_tail(t, i) {
        if t[i] == ']' {
            assert(tags_tail(tags) =~= seq![']']);
        } else {
            let (s, j) = read_literal(t, i + 1)->0;
            let rest = read_tags_tail(t, j)->0;
            lemma_quote_of_read_literal(t, i + 1);
            lemma_text_of_read_tags_tail(t, j);
            assert(tags[0] == s);
            assert(tags.drop_first() =~= rest);
            lemma_occurs_split(t, quote(s), tags_tail(rest), i + 1);
            assert(occurs_at(t, seq![','], i));
            lemma_occurs_split(t, seq![','], quote(s) + tags_tail(rest), i);
        }
    }
}

/// Reading the stored text of a list of tag ids gives the list back.
pub proof fn lemma_tags_round_trip(tags: Seq<Seq<char>>)
    ensures
        tags_of_text(tags_text(tags)) == Some(tags),
{
    let t = tags_text(tags);
    if tags.len() == 0 {
        assert(tags =~= Seq::empty());
    } else {
        let first = quote(tags[0]);
        let rest = tags.drop_first();
        lemma_bracketed(t, first, tags_tail(rest));
        lemma_quote_opens(tags[0]);
        lemma_read_literal_of_quote(t, 1, tags[0]);
        lemma_read_tags_tail_of_text(t, 1int + first.len(), rest);
        assert(seq![tags[0]] + rest =~= tags);
    }
}

/// A text that reads as a list of tag ids is the stored text of that list.
pub proof fn lemma_tags_canonical(t: Seq<char>)
    ensures
        tags_of_text(t) matches Some(tags) ==> tags_text(tags) == t,
{
    if let Some(tags) = tags_of_text(t) {
        if t[1] == ']' {
            assert(t =~= seq!['[', ']']);
        } else {
            let (s, j) = read_literal(t, 1)->0;
            let rest = read_tags_tail(t, j)->0;
            lemma_quote_of_read_literal(t, 1);
            lemma_text_of_read_tags_tail(t, j);
            assert(tags[0] == s);
            assert(tags.drop_first() =~= rest);
            lemma_bracketed_whole(t, quote(s), tags_tail(rest));
        }
    }
}

proof fn lemma_section_text_opens(s: SectionView)
    ensures
        section_text(s).len() > 0,
        section_text(s)[0] == '{',
{
    assert(title_key()[0] == '{');
}

proof fn lemma_read_section_of_text(t: Seq<char>, i: int, s: SectionView)
    requires
        occurs_at(t, section_text(s), i),
    ensures
        read_section(t, i) == Some((s, i + section_text(s).len())),
{
    let a = title_key();
    let b = quote(s.title);
    let c = content_key();
    let d = quote(s.content);
    let e = seq!['}'];
    lemma_occurs_split(t, a, b + (c + (d + e)), i);
    lemma_occurs_split(t, b, c + (d + e), i + 9);
    lemma_occurs_split(t, c, d + e, i + 9 + b.len());
    lemma_occurs_split(t, d, e, i + 9 + b.len() + 11);
    lemma_read_literal_of_quote(t, i + 9, s.title);
    lemma_read_literal_of_quote(t, i + 9 + b.len() + 11, s.content);
    let k = i + 9 + b.len() + 11 + d.len();
    assert(t[k + 0] == e[0]);
}

proof fn lemma_text_of_read_section(t: Seq<char>, i: int)
    ensures
        read_section(t, i) matches Some((s, k)) ==> occurs_at(t, section_text(s), i) && k == i
            + section_text(s).len(),
{
    if let Some((s, k)) = read_section(t, i) {
        let (title, j) = read_literal(t, i + 9)->0;
        let (content, m) = read_literal(t, j + 11)->0;
        lemma_quote_of_read_literal(t, i + 9);
        lemma_quote_of_read_literal(t, j + 11);
        let a = title_key();
        let b = quote(s.title);
        let c = content_key();
        let d = quote(s.content);
        let e = seq!['}'];
        assert(occurs_at(t, e, m));
        lemma_occurs_split(t, d, e, j + 11);
        lemma_occurs_split(t, c, d + e, j);
        lemma_occurs_split(t, b, c + (d + e), i + 9);
        lemma_occurs_split(t, a, b + (c + (d + e)), i);
    }
}

proof fn lemma_read_sections_tail_of_text(t: Seq<char>, i: int, sections: Seq<SectionView>)
    requires
        occurs_at(t, sections_tail(sections), i),
        i + sections_tail(sections).len() == t.len(),
    ensures
        read_sections_tail(t, i) == Some(sections),
    decreases sections.len(),
{
    if sections.len() == 0 {
        assert(t[i + 0] == seq![']'][0]);
        assert(sections =~= Seq::empty());
    } else {
        let rest = sections.drop_first();
        let first = section_text(sections[0]);
        lemma_occurs_split(t, seq![','], first + sections_tail(rest), i);
        lemma_occurs_split(t, first, sections_tail(rest), i + 1);
        assert(t[i + 0] == seq![','][0]);
        lemma_read_section_of_text(t, i + 1, sections[0]);
        lemma_read_sections_tail_of_text(t, i + 1int + first.len(), rest);
        assert(seq![sections[0]] + rest =~= sections);
    }
}

proof fn lemma_text_of_read_sections_tail(t: Seq<char>, i: int)
    ensures
        read_sections_tail(t, i) matches Some(sections) ==> occurs_at(
            t,
            sections_tail(sections),
            i,
        ) && i + sections_tail(sections).len() == t.len(),
    decreases t.len() - i,
{
    if let Some(sections) = read_sections_tail(t, i) {
        if t[i] == ']' {
            assert(sections_tail(sections) =~= seq![']']);
        } else {
            let (s, j) = read_section(t, i + 1)->0;
            let rest = read_sections_tail(t, j)->0;
            lemma_text_of_read_section(t, i + 1);
            lemma_text_of_read_sections_tail(t, j);
            assert(sections[0] == s);
            assert(sections.drop_first() =~= rest);
            let first = section_text(s);
            lemma_occurs_split(t, first, sections_tail(rest), i + 1);
            assert(occurs_at(t, seq![','], i));
            lemma_occurs_split(t, seq![','], first + sections_tail(rest), i);
        }
    }
}

/// Reading the stored text of a list of sections gives the list back.
pub proof fn lemma_sections_round_trip(sections: Seq<SectionView>)
    ensures
        sections_of_text(sections_text(sections)) == Some(sections),
{
    let t = sections_text(sections);
    if sections.len() == 0 {
        assert(sections =~= Seq::empty());
    } else {
        let first = section_text(sections[0]);
        let rest = sections.drop_first();
        lemma_bracketed(t, first, sections_tail(rest));
        lemma_section_text_opens(sections[0]);
        lemma_read_section_of_text(t, 1, sections[0]);
        lemma_read_sections_tail_of_text(t, 1int + first.len(), rest);
        assert(seq![sections[0]] + rest =~= sections);
    }
}

/// A text that reads as a list of sections is the stored text of that
/// list.
pub proof fn lemma_sections_canonical(t: Seq<char>)
    ensures
        sections_of_text(t) matches Some(sections) ==> sections_text(sections) == t,
{
    if let Some(sections) = sections_of_text(t) {
        if t[1] == ']' {
            assert(t =~= seq!['[', ']']);
        } else {
            let (s, j) = read_section(t, 1)->0;
            let rest = read_sections_tail(t, j)->0;
            lemma_text_of_read_section(t, 1);
            lemma_text_of_read_sections_tail(t, j);
            assert(sections[0] == s);
            assert(sections.drop_first() =~= rest);
            lemma_bracketed_whole(t, section_text(s), sections_tail(rest));
        }
    }
}

/// The flat row of a template: its plain columns as they are, its nested
/// fields as their stored text.
pub open spec fn row_of(t: TemplateView) -> RowView {
    RowView {
        id: t.id,
        title: t.title,
        sections: sections_text(t.sections),
        disease: t.disease,
        template_type: t.template_type,
        tags: tags_text(t.tags),
        created_at: t.created_at,
        updated_at: t.updated_at,
        is_favorite: t.is_favorite,
    }
}

/// The template that a flat row stands for; `None` where one of its two
/// text columns is the stored text of no value.
pub open spec fn template_of(r: RowView) -> Option<TemplateView> {
    match (sections_of_text(r.sections), tags_of_text(r.tags)) {
        (Some(sections), Some(tags)) => Some(
            TemplateView {
                id: r.id,
                title: r.title,
                sections,
                disease: r.disease,
                template_type: r.template_type,
                tags,
                created_at: r.created_at,
                updated_at: r.updated_at,
                is_favorite: r.is_favorite,
            },
        ),
        _ => None,
    }
}

/// Decoding the row of a template gives the template back, whatever its
/// sections and tags hold.
pub proof fn lemma_template_round_trip(t: TemplateView)
    ensures
        template_of(row_of(t)) == Some(t),
{
    lemma_sections_round_trip(t.sections);
    lemma_tags_round_trip(t.tags);
}

/// A row that decodes is the row of the template it decodes to.
pub proof fn lemma_row_canonical(r: RowView)
    ensures
        template_of(r) matches Some(t) ==> row_of(t) == r,
{
    lemma_sections_canonical(r.sections);
    lemma_tags_canonical(r.tags);
}

/// Two templates with the same row are the same template.
pub proof fn lemma_row_of_injective(a: TemplateView, b: TemplateView)
    requires
        row_of(a) == row_of(b),
    ensures
        a == b,
{
    lemma_template_round_trip(a);
    lemma_template_round_trip(b);
}

fn push_all(out: &mut String, chars: &Vec<char>)
    ensures
        final(out)@ == old(out)@ + chars@,
{
    let mut i: usize = 0;
    while i < chars.len()
        invariant
            i <= chars.len(),
            out@ == old(out)@ + chars@.take(i as int),
        decreases chars.len() - i,
    {
        out.push(chars[i]);
        assert(chars@.take(i + 1) =~= chars@.take(i as int).push(chars@[i as int]));
        i += 1;
    }
    assert(chars@.take(chars.len() as int) =~= chars@);
}

fn title_key_chars() -> (k: Vec<char>)
    ensures
        k@ == title_key(),
{
    let k: Vec<char> = vec!['{', '"', 't', 'i', 't', 'l', 'e', '"', ':'];
    assert(k@ =~= title_key());
    k
}

fn content_key_chars() -> (k: Vec<char>)
    ensures
        k@ == content_key(),
{
    let k: Vec<char> = vec![',', '"', 'c', 'o', 'n', 't', 'e', 'n', 't', '"', ':'];
    assert(k@ =~= content_key());
    k
}

/// Whether `key` stands at position `i` of `t`.
fn key_at(t: &Vec<char>, key: &Vec<char>, i: usize) -> (r: bool)
    ensures
        r == occurs_at(t@, key@, i as int),
{
    if i > t.len() || t.len() - i < key.len() {
        return false;
    }
    let mut j: usize = 0;
    while j < key.len()
        invariant
            j <= key.len(),
            i + key.len() <= t.len(),
            forall|k: int| 0 <= k < j ==> t@[i + k] == #[trigger] key@[k],
        decreases key.len() - j,
    {
        if t[i + j] != key[j] {
            assert(t@[i + j] != key@[j as int]);
            return false;
        }
        j += 1;
    }
    true
}

fn push_section(out: &mut String, section: &TemplateSection)
    ensures
        final(out)@ == old(out)@ + section_text(section@),
{
    let opening = title_key_chars();
    push_all(out, &opening);
    let title = chars_of(section.title.as_str());
    push_quoted(out, &title);
    let middle = content_key_chars();
    push_all(out, &middle);
    let content = chars_of(section.content.as_str());
    push_quoted(out, &content);
    out.push('}');
    assert(out@ =~= old(out)@ + section_text(section@));
}

/// Reads the section whose text starts at position `i` of `t`.
fn read_section_at(t: &Vec<char>, i: usize) -> (r: Option<(TemplateSection, usize)>)
    ensures
        match r {
            Some((s, j)) => read_section(t@, i as int) == Some((s@, j as int)) && i < j <= t.len(),
            None => read_section(t@, i as int) is None,
        },
{
    let opening = title_key_chars();
    if !key_at(t, &opening, i) {
        return None;
    }
    assert(i + 9 <= t.len()) by {
        assert(title_key().len() == 9);
        assert(occurs_at(t@, title_key(), i as int));
    }
    let (title, j) = match read_literal_at(t, i + 9) {
        Some(found) => found,
        None => {
            return None;
        },
    };
    let middle = content_key_chars();
    if !key_at(t, &middle, j) {
        return None;
    }
    assert(j + 11 <= t.len()) by {
        assert(content_key().len() == 11);
        assert(occurs_at(t@, content_key(), j as int));
    }
    let (content, k) = match read_literal_at(t, j + 11) {
        Some(found) => found,
        None => {
            return None;
        },
    };
    if k < t.len() && t[k] == '}' {
        Some((TemplateSection { title, content }, k + 1))
    } else {
        None
    }
}

/// Writes a list of tag ids as its stored text.
pub fn encode_tags(tags: &Vec<String>) -> (r: String)
    ensures
        r@ == tags_text(tags.deep_view()),
{
    let ghost model = tags.deep_view();
    let mut out = String::new();
    out.push('[');
    let mut i: usize = 0;
    while i < tags.len()
        invariant
            i <= tags.len(),
            model == tags.deep_view(),
            i == 0 ==> out@ == seq!['['],
            i > 0 ==> out@ + tags_tail(model.skip(i as int)) == tags_text(model),
        decreases tags.len() - i,
    {
        let ghost before = out@;
        if i > 0 {
            out.push(',');
        }
        let chars = chars_of(tags[i].as_str());
        push_quoted(&mut out, &chars);
        proof {
            let rest = model.skip(i as int);
            assert(rest[0] == tags[i as int]@);
            assert(rest.drop_first() =~= model.skip(i + 1));
            if i == 0 {
                assert(rest =~= model);
                assert(out@ + tags_tail(model.skip(1)) =~= tags_text(model));
            } else {
                assert(out@ + tags_tail(model.skip(i + 1)) =~= before + tags_tail(rest));
            }
        }
        i += 1;
    }
    out.push(']');
    proof {
        if tags.len() == 0 {
            assert(out@ =~= seq!['[', ']']);
        } else {
            assert(model.skip(tags.len() as int) =~= Seq::<Seq<char>>::empty());
            assert(out@ =~= tags_text(model));
        }
    }
    out
}

/// Writes a list of sections as its stored text.
pub fn encode_sections(sections: &Vec<TemplateSection>) -> (r: String)
    ensures
        r@ == sections_text(sections.deep_view()),
{
    let ghost model = sections.deep_view();
    let mut out = String::new();
    out.push('[');
    let mut i: usize = 0;
    while i < sections.len()
        invariant
            i <= sections.len(),
            model == sections.deep_view(),
            i == 0 ==> out@ == seq!['['],
            i > 0 ==> out@ + sections_tail(model.skip(i as int)) == sections_text(model),
        decreases sections.len() - i,
    {
        let ghost before = out@;
        if i > 0 {
            out.push(',');
        }
        push_section(&mut out, &sections[i]);
        proof {
            let rest = model.skip(i as int);
            assert(rest[0] == sections[i as int]@);
            assert(rest.drop_first() =~= model.skip(i + 1));
            if i == 0 {
                assert(rest =~= model);
                assert(out@ + sections_tail(model.skip(1)) =~= sections_text(model));
            } else {
                assert(out@ + sections_tail(model.skip(i + 1)) =~= before + sections_tail(rest));
            }
        }
        i += 1;
    }
    out.push(']');
    proof {
        if sections.len() == 0 {
            assert(out@ =~= seq!['[', ']']);
        } else {
            assert(model.skip(sections.len() as int) =~= Seq::<SectionView>::empty());
            assert(out@ =~= sections_text(model));
        }
    }
    out
}

/// Reads a list of tag ids from its stored text. It fails exactly where
/// `text` is the stored text of no list.
pub fn decode_tags(text: &str) -> (r: Result<Vec<String>, StoreError>)
    ensures
        match r {
            Ok(tags) => tags_of_text(text@) == Some(tags.deep_view()) && tags_text(
                tags.deep_view(),
            ) == text@,
            Err(e) => e is DecodeFailure && tags_of_text(text@) is None && forall|
                v: Seq<Seq<char>>,
            |
                tags_text(v) != text@,
        },
{
    let t = chars_of(text);
    proof {
        lemma_tags_canonical(t@);
        assert forall|v: Seq<Seq<char>>| tags_of_text(t@) is None implies tags_text(v) != t@ by {
            lemma_tags_round_trip(v);
        }
    }
    let mut out: Vec<String> = Vec::new();
    if t.len() < 2 || t[0] != '[' {
        return Err(StoreError::DecodeFailure);
    }
    if t[1] == ']' {
        if t.len() == 2 {
            assert(out.deep_view() =~= Seq::<Seq<char>>::empty());
            return Ok(out);
        } else {
            return Err(StoreError::DecodeFailure);
        }
    }
    let mut p: usize = 0;
    match read_literal_at(&t, 1) {
        Some((s, j)) => {
            out.push(s);
            p = j;
            assert(out.deep_view() =~= seq![s@]);
        },
        None => {
            return Err(StoreError::DecodeFailure);
        },
    }
    loop
        invariant
            1 < p <= t.len(),
            t@ == text@,
            tags_of_text(t@) == (match read_tags_tail(t@, p as int) {
                Some(rest) => Some(out.deep_view() + rest),
                None => None,
            }),
            tags_of_text(t@) matches Some(v) ==> tags_text(v) == t@,
            tags_of_text(t@) is None ==> forall|v: Seq<Seq<char>>| tags_text(v) != t@,
        decreases t.len() - p,
    {
        if p >= t.len() {
            return Err(StoreError::DecodeFailure);
        }
        let c = t[p];
        if c == ']' {
            if p + 1 == t.len() {
                assert(out.deep_view() + Seq::<Seq<char>>::empty() =~= out.deep_view());
                return Ok(out);
            } else {
                return Err(StoreError::DecodeFailure);
            }
        }
        if c != ',' {
            return Err(StoreError::DecodeFailure);
        }
        match read_literal_at(&t, p + 1) {
            Some((s, j)) => {
                let ghost before = out.deep_view();
                proof {
                    assert forall|rest: Seq<Seq<char>>| before + (seq![s@] + rest) == before.push(
                        s@,
                    ) + rest by {
                        assert(before + (seq![s@] + rest) =~= before.push(s@) + rest);
                    }
                }
                out.push(s);
                assert(out.deep_view() =~= before.push(s@));
                p = j;
            },
            None => {
                return Err(StoreError::DecodeFailure);
            },
        }
    }
}

/// Reads a list of sections from its stored text. It fails exactly where
/// `text` is the stored text of no list.
pub fn decode_sections(text: &str) -> (r: Result<Vec<TemplateSection>, StoreError>)
    ensures
        match r {
            Ok(sections) => sections_of_text(text@) == Some(sections.deep_view()) && sections_text(
                sections.deep_view(),
            ) == text@,
            Err(e) => e is DecodeFailure && sections_of_text(text@) is None && forall|
                v: Seq<SectionView>,
            |
                sections_text(v) != text@,
        },
{
    let t = chars_of(text);
    proof {
        lemma_sections_canonical(t@);
        assert forall|v: Seq<SectionView>| sections_of_text(t@) is None implies sections_text(v)
            != t@ by {
            lemma_sections_round_trip(v);
        }
    }
    let mut out: Vec<TemplateSection> = Vec::new();
    if t.len() < 2 || t[0] != '[' {
        return Err(StoreError::DecodeFailure);
    }
    if t[1] == ']' {
        if t.len() == 2 {
            assert(out.deep_view() =~= Seq::<SectionView>::empty());
            return Ok(out);
        } else {
            return Err(StoreError::DecodeFailure);
        }
    }
    let mut p: usize = 0;
    match read_section_at(&t, 1) {
        Some((s, j)) => {
            let ghost first = s@;
            out.push(s);
            p = j;
            assert(out.deep_view() =~= seq![first]);
        },
        None => {
            return Err(StoreError::DecodeFailure);
        },
    }
    loop
        invariant
            1 < p <= t.len(),
            t@ == text@,
            sections_of_text(t@) == (match read_sections_tail(t@, p as int) {
                Some(rest) => Some(out.deep_view() + rest),
                None => None,
            }),
            sections_of_text(t@) matches Some(v) ==> sections_text(v) == t@,
            sections_of_text(t@) is None ==> forall|v: Seq<SectionView>| sections_text(v) != t@,
        decreases t.len() - p,
    {
        if p >= t.len() {
            return Err(StoreError::DecodeFailure);
        }
        let c = t[p];
        if c == ']' {
            if p + 1 == t.len() {
                assert(out.deep_view() + Seq::<SectionView>::empty() =~= out.deep_view());
                return Ok(out);
            } else {
                return Err(StoreError::DecodeFailure);
            }
        }
        if c != ',' {
            return Err(StoreError::DecodeFailure);
        }
        match read_section_at(&t, p + 1) {
            Some((s, j)) => {
                let ghost before = out.deep_view();
                let ghost next = s@;
                proof {
                    assert forall|rest: Seq<SectionView>| before + (seq![next] + rest)
                        == before.push(next) + rest by {
                        assert(before + (seq![next] + rest) =~= before.push(next) + rest);
                    }
                }
                out.push(s);
                assert(out.deep_view() =~= before.push(next));
                p = j;
            },
            None => {
                return Err(StoreError::DecodeFailure);
            },
        }
    }
}

/// The flat row of a template.
pub fn encode_template(template: &Template) -> (row: TemplateRow)
    ensures
        row@ == row_of(template@),
{
    TemplateRow {
        id: template.id.clone(),
        title: template.title.clone(),
        sections: encode_sections(&template.sections),
        disease: template.disease.clone(),
        template_type: template.template_type.clone(),
        tags: encode_tags(&template.tags),
        created_at: template.created_at,
        updated_at: template.updated_at,
        is_favorite: template.is_favorite,
    }
}

/// The template that a flat row stands for. It fails exactly where one of
/// the two text columns is the stored text of no value, that is, where
/// `row` is the row of no template.
pub fn decode_template(row: &TemplateRow) -> (r: Result<Template, StoreError>)
    ensures
        match r {
            Ok(template) => template_of(row@) == Some(template@) && row_of(template@) == row@,
            Err(e) => e is DecodeFailure && template_of(row@) is None && forall|v: TemplateView|
                row_of(v) != row@,
        },
{
    proof {
        lemma_row_canonical(row@);
    }
    let sections = match decode_sections(row.sections.as_str()) {
        Ok(sections) => sections,
        Err(e) => {
            return Err(e);
        },
    };
    let tags = match decode_tags(row.tags.as_str()) {
        Ok(tags) => tags,
        Err(e) => {
            return Err(e);
        },
    };
    Ok(
        Template {
            id: row.id.clone(),
            title: row.title.clone(),
            sections,
            disease: row.disease.clone(),
            template_type: row.template_type.clone(),
            tags,
            created_at: row.created_at,
            updated_at: row.updated_at,
            is_favorite: row.is_favorite,
        },
    )
}

} // verus!
