//! The example transform shipped with the sandbox transport: a plugin that
//! uppercases the content of every top-level chapter, leaving names, order,
//! separators and nested structure unchanged.  A guest module built from
//! this transform exercises the whole sandbox path; the transform itself is
//! verified here.

use vstd::prelude::*;

use crate::book::{Book, BookItem, Chapter, ChapterView, ItemView, items_view};

verus! {

/// The result of str::to_uppercase, named: it depends on the characters
/// alone.
pub uninterp spec fn upper_of(s: Seq<char>) -> Seq<char>;

/// Relies on str::to_uppercase: the uppercase mapping of the characters,
/// a function of the characters alone.
#[verifier::external_body]
fn to_uppercase(s: &String) -> (r: String)
    ensures
        r@ == upper_of(s@),
{
    s.as_str().to_uppercase()
}

/// The transform on one item: a chapter's content is uppercased and every
/// other field kept; a separator passes through.
pub open spec fn updated_item_view(it: ItemView) -> ItemView {
    match it {
        ItemView::Separator => it,
        ItemView::Chapter(ch) => ItemView::Chapter(
            ChapterView {
                name: ch.name,
                content: upper_of(ch.content),
                number: ch.number,
                sub_items: ch.sub_items,
                path: ch.path,
                parent_names: ch.parent_names,
            },
        ),
    }
}

/// Uppercase the content of one item.
pub fn updated_item(item: BookItem) -> (r: BookItem)
    ensures
        r@ == updated_item_view(item@),
{
    match item {
        BookItem::Separator => BookItem::Separator,
        BookItem::Chapter(mut ch) => {
            let ghost ch0 = ch;
            let up = to_uppercase(&ch.content);
            ch.content = up;
            proof {
                assert(crate::book::chapter_view(ch) == (ChapterView {
                    name: ch0.name@,
                    content: upper_of(ch0.content@),
                    number: crate::book::chapter_view(ch0).number,
                    sub_items: items_view(ch0.sub_items@),
                    path: ch0.path@,
                    parent_names: crate::book::strings_view(ch0.parent_names@),
                }));
            }
            BookItem::Chapter(ch)
        },
    }
}

/// The example preprocessor: uppercase the content of every top-level
/// chapter.  Length, order and everything but the contents stay as they
/// were.
pub fn preprocess(book: Book) -> (r: Book)
    ensures
        r@.len() == book@.len(),
        forall|i: int| 0 <= i < book@.len() ==> r@[i] == updated_item_view(#[trigger] book@[i]),
{
    let ghost orig = book.sections@;
    let mut sections = book.sections;
    let mut out: Vec<BookItem> = Vec::new();
    proof {
        crate::book::lemma_items_view_index(orig);
    }
    while sections.len() > 0
        invariant
            sections@ =~= orig.skip(orig.len() - sections@.len()),
            sections@.len() <= orig.len(),
            items_view(out@).len() == orig.len() - sections@.len(),
            items_view(orig).len() == orig.len(),
            forall|i: int|
                0 <= i < orig.len() ==> #[trigger] items_view(orig)[i] == crate::book::item_view(
                    orig[i],
                ),
            forall|i: int|
                0 <= i < orig.len() - sections@.len() ==> #[trigger] items_view(out@)[i]
                    == updated_item_view(items_view(orig)[i]),
        decreases sections@.len(),
    {
        let ghost j = orig.len() - sections@.len();
        let it = sections.remove(0);
        proof {
            assert(it == orig[j as int]);
            assert(sections@ =~= orig.skip(j + 1));
        }
        let it2 = updated_item(it);
        proof {
            crate::book::lemma_items_view_push(out@, it2);
        }
        out.push(it2);
    }
    proof {
        assert(items_view(out@).len() == orig.len());
    }
    Book { sections: out }
}

} // verus!
