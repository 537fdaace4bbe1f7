//! The in-memory tree model of a document: a book is an ordered sequence of
//! items, where an item is either a chapter (which may nest further items) or
//! a separator.  The module provides depth-first traversal and an in-place
//! recursive mutation primitive, both with full functional contracts over the
//! ghost view of the tree.

use vstd::prelude::*;

verus! {

/// Ghost model of one tree item.
pub enum ItemView {
    Chapter(ChapterView),
    Separator,
}

/// Ghost model of a chapter.
pub struct ChapterView {
    pub name: Seq<char>,
    pub content: Seq<char>,
    pub number: Option<Seq<u32>>,
    pub sub_items: Seq<ItemView>,
    pub path: Seq<char>,
    pub parent_names: Seq<Seq<char>>,
}

/// A tree structure representing a book: an ordered collection of items,
/// iterated depth-first with [`Book::iter`] or mutated recursively with
/// [`Book::for_each_mut`].
#[derive(Debug, PartialEq)]
pub struct Book {
    /// The sections in this book.
    pub sections: Vec<BookItem>,
}

/// Any type of item which can be added to a book.
#[derive(Debug, PartialEq)]
pub enum BookItem {
    /// A nested chapter.
    Chapter(Chapter),
    /// A section separator.
    Separator,
}

/// A chapter, usually mapping to a single source file, possibly holding
/// nested sub-chapters.
#[derive(Debug, PartialEq)]
pub struct Chapter {
    /// The chapter's name.
    pub name: String,
    /// The chapter's contents.
    pub content: String,
    /// The chapter's section number, if it has one.
    pub number: Option<SectionNumber>,
    /// Nested items.
    pub sub_items: Vec<BookItem>,
    /// The chapter's location, relative to the navigation manifest.
    pub path: String,
    /// An ordered list of the names of each chapter above this one.
    pub parent_names: Vec<String>,
}

/// A section number like "1.2.3.": a sequence of positive integers denoting
/// a hierarchical position.
#[derive(Debug, PartialEq)]
pub struct SectionNumber(pub Vec<u32>);

/// Ghost view of a sequence of owned strings.
pub open spec fn strings_view(ss: Seq<String>) -> Seq<Seq<char>> {
    ss.map(|i: int, s: String| s@)
}

/// The view of a list of strings extended by one string.
pub proof fn lemma_strings_view_push(s: Seq<String>, x: String)
    ensures
        strings_view(s.push(x)) == strings_view(s).push(x@),
{
    assert(strings_view(s.push(x)) =~= strings_view(s).push(x@)) by {
        assert(forall|i: int|
            0 <= i < s.len() ==> #[trigger] strings_view(s.push(x))[i] == s[i]@);
    }
}

/// Ghost view of a sequence of items.
pub open spec fn items_view(items: Seq<BookItem>) -> Seq<ItemView>
    decreases items,
{
    if items.len() == 0 {
        Seq::empty()
    } else {
        seq![item_view(items.first())] + items_view(items.drop_first())
    }
}

/// Ghost view of one item.
pub open spec fn item_view(it: BookItem) -> ItemView
    decreases it,
{
    match it {
        BookItem::Separator => ItemView::Separator,
        BookItem::Chapter(ch) => ItemView::Chapter(chapter_view(ch)),
    }
}

/// Ghost view of a chapter.
pub open spec fn chapter_view(ch: Chapter) -> ChapterView
    decreases ch,
{
    ChapterView {
        name: ch.name@,
        content: ch.content@,
        number: match ch.number {
            Option::None => Option::None,
            Option::Some(sn) => Option::Some(sn.0@),
        },
        sub_items: items_view(ch.sub_items@),
        path: ch.path@,
        parent_names: strings_view(ch.parent_names@),
    }
}

impl View for BookItem {
    type V = ItemView;

    open spec fn view(&self) -> ItemView {
        item_view(*self)
    }
}

impl View for Chapter {
    type V = ChapterView;

    open spec fn view(&self) -> ChapterView {
        chapter_view(*self)
    }
}

impl View for Book {
    type V = Seq<ItemView>;

    open spec fn view(&self) -> Seq<ItemView> {
        items_view(self.sections@)
    }
}

impl View for SectionNumber {
    type V = Seq<u32>;

    open spec fn view(&self) -> Seq<u32> {
        self.0@
    }
}

/// Number of items in a tree rooted at one item (the item itself plus all of
/// its descendants).
pub open spec fn item_size(it: ItemView) -> nat
    decreases it,
{
    match it {
        ItemView::Separator => 1,
        ItemView::Chapter(ch) => 1 + items_size(ch.sub_items),
    }
}

/// Number of items in a forest, descendants included.
pub open spec fn items_size(items: Seq<ItemView>) -> nat
    decreases items,
{
    if items.len() == 0 {
        0
    } else {
        item_size(items.first()) + items_size(items.drop_first())
    }
}

/// Depth-first, pre-order flattening of the tree rooted at one item: the item
/// itself first, then its descendants in order.
pub open spec fn flatten_item(it: ItemView) -> Seq<ItemView>
    decreases it,
{
    match it {
        ItemView::Separator => seq![it],
        ItemView::Chapter(ch) => seq![it] + flatten_items(ch.sub_items),
    }
}

/// Depth-first, pre-order flattening of a forest.
pub open spec fn flatten_items(items: Seq<ItemView>) -> Seq<ItemView>
    decreases items,
{
    if items.len() == 0 {
        Seq::empty()
    } else {
        flatten_item(items.first()) + flatten_items(items.drop_first())
    }
}

/// An element's size is bounded by the size of the forest holding it.
pub proof fn lemma_item_size_le(items: Seq<ItemView>, i: int)
    requires
        0 <= i < items.len(),
    ensures
        item_size(items[i]) <= items_size(items),
    decreases items,
{
    if i > 0 {
        lemma_item_size_le(items.drop_first(), i - 1);
    } else {
        lemma_items_size_nonneg(items.drop_first());
    }
}

/// A size is never negative (trivial, stated for use as a bound).
pub proof fn lemma_items_size_nonneg(items: Seq<ItemView>)
    ensures
        items_size(items) >= 0,
{
}

/// The view of a forest has one entry per item, in order.
pub proof fn lemma_items_view_index(items: Seq<BookItem>)
    ensures
        items_view(items).len() == items.len(),
        forall|i: int|
            0 <= i < items.len() ==> #[trigger] items_view(items)[i] == item_view(items[i]),
    decreases items,
{
    if items.len() > 0 {
        lemma_items_view_index(items.drop_first());
    }
}

/// The view of a forest splits over concatenation.
pub proof fn lemma_items_view_append(a: Seq<BookItem>, b: Seq<BookItem>)
    ensures
        items_view(a + b) == items_view(a) + items_view(b),
    decreases a,
{
    if a.len() == 0 {
        assert(a + b =~= b);
        assert(items_view(a) + items_view(b) =~= items_view(b));
    } else {
        assert((a + b).drop_first() =~= a.drop_first() + b);
        lemma_items_view_append(a.drop_first(), b);
        assert(items_view(a + b) =~= items_view(a) + items_view(b));
    }
}

/// Flattening splits over concatenation.
pub proof fn lemma_flatten_items_append(a: Seq<ItemView>, b: Seq<ItemView>)
    ensures
        flatten_items(a + b) == flatten_items(a) + flatten_items(b),
    decreases a,
{
    if a.len() == 0 {
        assert(a + b =~= b);
        assert(flatten_items(a) + flatten_items(b) =~= flatten_items(b));
    } else {
        assert((a + b).drop_first() =~= a.drop_first() + b);
        lemma_flatten_items_append(a.drop_first(), b);
        assert(flatten_items(a + b) =~= flatten_items(a) + flatten_items(b));
    }
}

/// A full-tree visit touches exactly as many items as the flattened tree
/// holds: the size measure and the flattened length agree.
pub proof fn lemma_items_size_is_flatten_len(items: Seq<ItemView>)
    ensures
        items_size(items) == flatten_items(items).len(),
    decreases items,
{
    if items.len() > 0 {
        lemma_item_size_is_flatten_len(items.first());
        lemma_items_size_is_flatten_len(items.drop_first());
    }
}

/// Size and flattened length agree for a single tree.
pub proof fn lemma_item_size_is_flatten_len(it: ItemView)
    ensures
        item_size(it) == flatten_item(it).len(),
    decreases it,
{
    match it {
        ItemView::Separator => {}
        ItemView::Chapter(ch) => {
            lemma_items_size_is_flatten_len(ch.sub_items);
        }
    }
}

impl Book {
    /// Create an empty book.
    pub fn new() -> (b: Book)
        ensures
            b@ =~= Seq::<ItemView>::empty(),
    {
        Book { sections: Vec::new() }
    }

    /// Create a book holding the given sections.
    pub fn with_chapters(sections: Vec<BookItem>) -> (b: Book)
        ensures
            b@ == items_view(sections@),
            b.sections == sections,
    {
        Book { sections }
    }

    /// Append an item to the book.
    pub fn push_item(&mut self, item: BookItem)
        ensures
            final(self)@ == old(self)@.push(item@),
            final(self).sections@ == old(self).sections@.push(item),
    {
        proof {
            let s = self.sections@;
            let one = seq![item];
            lemma_items_view_append(s, one);
            assert(s.push(item) =~= s + one);
            assert(one.drop_first() =~= Seq::<BookItem>::empty());
            assert(items_view(Seq::<BookItem>::empty()) =~= Seq::<ItemView>::empty());
            assert(items_view(one) =~= seq![item_view(item)]);
            assert(items_view(s) + seq![item_view(item)] =~= items_view(s).push(item_view(item)));
        }
        self.sections.push(item);
    }
}

impl Default for Book {
    /// An empty book.
    fn default() -> (b: Book)
        ensures
            b@ =~= Seq::<ItemView>::empty(),
    {
        Book::new()
    }
}

impl Chapter {
    /// Create a new chapter with the provided content, with no section number
    /// and no nested items.
    pub fn new(name: &str, content: String, path: &str, parent_names: Vec<String>) -> (ch: Chapter)
        ensures
            ch@.name == name@,
            ch@.content == content@,
            ch@.number matches Option::None,
            ch@.sub_items =~= Seq::<ItemView>::empty(),
            ch@.path == path@,
            ch@.parent_names == strings_view(parent_names@),
    {
        Chapter {
            name: name.to_owned(),
            content,
            number: Option::None,
            sub_items: Vec::new(),
            path: path.to_owned(),
            parent_names,
        }
    }
}

impl Default for Chapter {
    /// A chapter with every field empty.
    fn default() -> (ch: Chapter)
        ensures
            ch@.name =~= Seq::<char>::empty(),
            ch@.content =~= Seq::<char>::empty(),
            ch@.number matches Option::None,
            ch@.sub_items =~= Seq::<ItemView>::empty(),
            ch@.path =~= Seq::<char>::empty(),
            ch@.parent_names =~= Seq::<Seq<char>>::empty(),
    {
        Chapter {
            name: String::new(),
            content: String::new(),
            number: Option::None,
            sub_items: Vec::new(),
            path: String::new(),
            parent_names: Vec::new(),
        }
    }
}

/// The view of a forest extended by one item.
pub proof fn lemma_items_view_push(s: Seq<BookItem>, x: BookItem)
    ensures
        items_view(s.push(x)) == items_view(s).push(item_view(x)),
{
    lemma_items_view_append(s, seq![x]);
    assert(s.push(x) =~= s + seq![x]);
    assert(seq![x].drop_first() =~= Seq::<BookItem>::empty());
    assert(items_view(Seq::<BookItem>::empty()) =~= Seq::<ItemView>::empty());
    assert(items_view(seq![x]) =~= seq![item_view(x)]);
    assert(items_view(s) + seq![item_view(x)] =~= items_view(s).push(item_view(x)));
}

/// Flattening a forest extended by one item.
pub proof fn lemma_flatten_items_push(s: Seq<ItemView>, x: ItemView)
    ensures
        flatten_items(s.push(x)) == flatten_items(s) + flatten_item(x),
{
    lemma_flatten_items_append(s, seq![x]);
    assert(s.push(x) =~= s + seq![x]);
    assert(seq![x].drop_first() =~= Seq::<ItemView>::empty());
    assert(flatten_items(Seq::<ItemView>::empty()) =~= Seq::<ItemView>::empty());
    assert(flatten_items(seq![x]) =~= flatten_item(x));
}

/// Deep copy of a vector of integers.
fn clone_u32s(v: &Vec<u32>) -> (r: Vec<u32>)
    ensures
        r@ == v@,
{
    let mut r: Vec<u32> = Vec::new();
    let mut j: usize = 0;
    while j < v.len()
        invariant
            j <= v.len(),
            r@ =~= v@.take(j as int),
        decreases v.len() - j,
    {
        r.push(v[j]);
        proof {
            assert(v@.take(j + 1 as int) =~= v@.take(j as int).push(v@[j as int]));
        }
        j = j + 1;
    }
    proof {
        assert(v@.take(v@.len() as int) =~= v@);
    }
    r
}

/// Deep copy of a vector of strings; the copy's entries read the same.
fn clone_strings(v: &Vec<String>) -> (r: Vec<String>)
    ensures
        strings_view(r@) == strings_view(v@),
{
    let mut r: Vec<String> = Vec::new();
    let mut j: usize = 0;
    while j < v.len()
        invariant
            j <= v.len(),
            r@.len() == j,
            forall|i: int| 0 <= i < j ==> #[trigger] r@[i]@ == v@[i]@,
        decreases v.len() - j,
    {
        r.push(v[j].clone());
        j = j + 1;
    }
    proof {
        assert(strings_view(r@) =~= strings_view(v@));
    }
    r
}

/// Deep copy of one item; the copy has the same view.
pub fn clone_item(it: &BookItem) -> (r: BookItem)
    ensures
        r@ == it@,
    decreases item_size(it@), 0int,
{
    match it {
        BookItem::Separator => BookItem::Separator,
        BookItem::Chapter(ch) => {
            let number = match &ch.number {
                Option::None => Option::None,
                Option::Some(sn) => Option::Some(SectionNumber(clone_u32s(&sn.0))),
            };
            let sub_items = clone_items(&ch.sub_items);
            BookItem::Chapter(
                Chapter {
                    name: ch.name.clone(),
                    content: ch.content.clone(),
                    number,
                    sub_items,
                    path: ch.path.clone(),
                    parent_names: clone_strings(&ch.parent_names),
                },
            )
        }
    }
}

/// Deep copy of a vector of items; the copy has the same view.
pub fn clone_items(items: &Vec<BookItem>) -> (r: Vec<BookItem>)
    ensures
        items_view(r@) == items_view(items@),
    decreases items_size(items_view(items@)), items@.len() + 1,
{
    let mut r: Vec<BookItem> = Vec::new();
    let mut j: usize = 0;
    proof {
        lemma_items_view_index(items@);
    }
    while j < items.len()
        invariant
            j <= items.len(),
            items_view(items@).len() == items@.len(),
            forall|i: int|
                0 <= i < items@.len() ==> #[trigger] items_view(items@)[i] == item_view(
                    items@[i],
                ),
            items_view(r@) =~= items_view(items@).take(j as int),
        decreases items.len() - j,
    {
        proof {
            lemma_item_size_le(items_view(items@), j as int);
        }
        let c = clone_item(&items[j]);
        proof {
            lemma_items_view_push(r@, c);
            assert(items_view(items@).take(j + 1 as int) =~= items_view(items@).take(
                j as int,
            ).push(items_view(items@)[j as int]));
        }
        r.push(c);
        j = j + 1;
    }
    proof {
        assert(items_view(items@).take(items@.len() as int) =~= items_view(items@));
    }
    r
}

/// Deep copy of a whole book; the copy has the same view.
pub fn clone_book(b: &Book) -> (r: Book)
    ensures
        r@ == b@,
{
    Book { sections: clone_items(&b.sections) }
}

/// A depth-first iterator over the items in a book, created by
/// [`Book::iter`].  Each item of the pre-order flattening is handed out once,
/// as a deep copy.
pub struct BookItems {
    items: Vec<BookItem>,
    pos: usize,
}

impl BookItems {
    /// The items not yet handed out, in order.
    pub closed spec fn remaining(&self) -> Seq<ItemView> {
        let v = items_view(self.items@);
        if (self.pos as int) <= v.len() {
            v.skip(self.pos as int)
        } else {
            Seq::empty()
        }
    }

    /// Hand out the next item, if one is left.
    pub fn next(&mut self) -> (r: Option<BookItem>)
        ensures
            match r {
                Option::Some(it) => old(self).remaining().len() > 0 && it@ == old(
                    self,
                ).remaining().first() && final(self).remaining() == old(
                    self,
                ).remaining().drop_first(),
                Option::None => old(self).remaining().len() == 0 && final(self).remaining()
                    == old(self).remaining(),
            },
    {
        proof {
            lemma_items_view_index(self.items@);
        }
        if self.pos < self.items.len() {
            let c = clone_item(&self.items[self.pos]);
            self.pos = self.pos + 1;
            proof {
                let v = items_view(old(self).items@);
                assert(v.skip(old(self).pos as int).first() == v[old(self).pos as int]);
                assert(v.skip(old(self).pos as int).drop_first() =~= v.skip(
                    old(self).pos + 1,
                ));
            }
            Option::Some(c)
        } else {
            Option::None
        }
    }

    /// How many items are left.
    pub fn count(self) -> (n: usize)
        ensures
            n == self.remaining().len(),
    {
        proof {
            lemma_items_view_index(self.items@);
        }
        if self.pos <= self.items.len() {
            self.items.len() - self.pos
        } else {
            0
        }
    }
}

/// Depth-first flattening, appending deep copies to `out`.
fn flatten_into(items: &Vec<BookItem>, out: &mut Vec<BookItem>)
    ensures
        items_view(final(out)@) == items_view(old(out)@) + flatten_items(items_view(items@)),
    decreases items_size(items_view(items@)), items@.len() + 1,
{
    let ghost out0 = out@;
    let mut j: usize = 0;
    proof {
        lemma_items_view_index(items@);
    }
    while j < items.len()
        invariant
            j <= items.len(),
            items_view(items@).len() == items@.len(),
            forall|i: int|
                0 <= i < items@.len() ==> #[trigger] items_view(items@)[i] == item_view(
                    items@[i],
                ),
            items_view(out@) =~= items_view(out0) + flatten_items(
                items_view(items@).take(j as int),
            ),
        decreases items.len() - j,
    {
        let ghost iv = items_view(items@)[j as int];
        proof {
            lemma_item_size_le(items_view(items@), j as int);
            assert(items_view(items@).take(j + 1 as int) =~= items_view(items@).take(
                j as int,
            ).push(iv));
            lemma_flatten_items_push(items_view(items@).take(j as int), iv);
        }
        let c = clone_item(&items[j]);
        proof {
            lemma_items_view_push(out@, c);
        }
        out.push(c);
        match &items[j] {
            BookItem::Separator => {
                proof {
                    assert(flatten_item(iv) =~= seq![iv]);
                    assert(items_view(out@) =~= items_view(out0) + flatten_items(
                        items_view(items@).take(j + 1 as int),
                    ));
                }
            }
            BookItem::Chapter(ch) => {
                proof {
                    assert(items_size(items_view(ch.sub_items@)) < item_size(iv)) by {
                        assert(iv == item_view(items@[j as int]));
                    }
                }
                flatten_into(&ch.sub_items, out);
                proof {
                    assert(flatten_item(iv) =~= seq![iv] + flatten_items(
                        items_view(ch.sub_items@),
                    ));
                    assert(items_view(out@) =~= items_view(out0) + flatten_items(
                        items_view(items@).take(j + 1 as int),
                    ));
                }
            }
        }
        j = j + 1;
    }
    proof {
        assert(items_view(items@).take(items@.len() as int) =~= items_view(items@));
    }
}

impl Book {
    /// Get a depth-first iterator over the items in the book: each chapter is
    /// handed out before its sub-items, sub-items in manifest order.
    pub fn iter(&self) -> (it: BookItems)
        ensures
            it.remaining() == flatten_items(self@),
    {
        let mut out: Vec<BookItem> = Vec::new();
        flatten_into(&self.sections, &mut out);
        proof {
            lemma_items_view_index(out@);
            assert(items_view(out@).skip(0) =~= items_view(out@));
        }
        BookItems { items: out, pos: 0 }
    }
}

/// The character of one decimal digit.
pub open spec fn digit_char(d: nat) -> char
    recommends
        d < 10,
{
    ((48 + d) as u32) as char
}

/// The decimal digits of a number, most significant first.
pub open spec fn dec_chars(n: nat) -> Seq<char>
    decreases n,
{
    if n < 10 {
        seq![digit_char(n)]
    } else {
        dec_chars(n / 10).push(digit_char(n % 10))
    }
}

/// The display form of the entries of a section number: each entry in
/// decimal, each followed by a dot.
pub open spec fn section_entries(v: Seq<u32>) -> Seq<char>
    decreases v,
{
    if v.len() == 0 {
        Seq::empty()
    } else {
        dec_chars(v.first() as nat) + seq!['.'] + section_entries(v.drop_first())
    }
}

/// The display form of a section number; an empty number reads "0".
pub open spec fn section_number_chars(v: Seq<u32>) -> Seq<char> {
    if v.len() == 0 {
        seq!['0']
    } else {
        section_entries(v)
    }
}

/// The display form of a chapter: its section number, if any, then its
/// name.
pub open spec fn chapter_display(ch: ChapterView) -> Seq<char> {
    match ch.number {
        Option::None => ch.name,
        Option::Some(v) => section_number_chars(v) + seq![' '] + ch.name,
    }
}

/// Extending a section number by one entry extends its entry display.
proof fn lemma_section_entries_push(v: Seq<u32>, x: u32)
    ensures
        section_entries(v.push(x)) == section_entries(v) + dec_chars(x as nat) + seq!['.'],
    decreases v,
{
    if v.len() == 0 {
        assert(v.push(x).drop_first() =~= Seq::<u32>::empty());
        assert(v.push(x).first() == x);
        assert(section_entries(Seq::<u32>::empty()) =~= Seq::<char>::empty());
        assert(section_entries(v.push(x)) =~= section_entries(v) + dec_chars(x as nat)
            + seq!['.']);
    } else {
        assert(v.push(x).drop_first() =~= v.drop_first().push(x));
        assert(v.push(x).first() == v.first());
        lemma_section_entries_push(v.drop_first(), x);
        assert(section_entries(v.push(x)) =~= section_entries(v) + dec_chars(x as nat)
            + seq!['.']);
    }
}

/// Append the decimal digits of a number to a string.
fn push_dec(s: &mut String, n: u32)
    ensures
        final(s)@ == old(s)@ + dec_chars(n as nat),
    decreases n,
{
    let ghost s0 = s@;
    if n >= 10 {
        push_dec(s, n / 10);
    }
    let d = (n % 10) as u8;
    let c = (48 + d) as char;
    crate::codec::push_char(s, c);
    proof {
        assert(c == digit_char((n % 10) as nat));
        if n < 10 {
            assert(s0 + dec_chars(n as nat) =~= s0.push(c));
        } else {
            assert(s0 + dec_chars(n as nat) =~= (s0 + dec_chars((n / 10) as nat)).push(c));
        }
    }
}

impl SectionNumber {
    /// The display form: each entry in decimal followed by a dot, or "0"
    /// for an empty number.
    pub fn display_string(&self) -> (r: String)
        ensures
            r@ == section_number_chars(self@),
    {
        let mut s = String::new();
        if self.0.len() == 0 {
            crate::codec::push_char(&mut s, '0');
            proof {
                assert(Seq::<char>::empty().push('0') =~= seq!['0']);
            }
            return s;
        }
        let mut j: usize = 0;
        while j < self.0.len()
            invariant
                j <= self.0@.len(),
                self.0@.len() > 0,
                s@ =~= section_entries(self.0@.take(j as int)),
            decreases self.0@.len() - j,
        {
            push_dec(&mut s, self.0[j]);
            crate::codec::push_char(&mut s, '.');
            proof {
                assert(self.0@.take(j + 1) =~= self.0@.take(j as int).push(self.0@[j as int]));
                lemma_section_entries_push(self.0@.take(j as int), self.0@[j as int]);
                assert(s@ =~= section_entries(self.0@.take(j + 1)));
            }
            j = j + 1;
        }
        proof {
            assert(self.0@.take(self.0@.len() as int) =~= self.0@);
        }
        s
    }
}

impl Chapter {
    /// The display form: the section number, if any, then the name.
    pub fn display_string(&self) -> (r: String)
        ensures
            r@ == chapter_display(self@),
    {
        let mut s = String::new();
        match &self.number {
            Option::Some(sn) => {
                s = sn.display_string();
                crate::codec::push_char(&mut s, ' ');
                proof {
                    assert(section_number_chars(sn@) + seq![' '] =~= section_number_chars(
                        sn@,
                    ).push(' '));
                }
            },
            Option::None => {},
        }
        s.append(self.name.as_str());
        proof {
            if self.number is None {
                assert(Seq::<char>::empty() + self.name@ =~= self.name@);
            }
        }
        s
    }
}

/// A mutation callback applied to every item of a tree.  `spec_visit` is the
/// functional model of one call: from visitor state and item view to
/// successor state and replacement item view.
pub trait ItemVisitor: Sized {
    /// The functional effect of one visit.
    spec fn spec_visit(self, it: ItemView) -> (Self, ItemView);

    /// Visit one item slot, mutating it in place.
    fn visit(&mut self, it: &mut BookItem)
        ensures
            *final(self) == old(self).spec_visit(old(it)@).0,
            final(it)@ == old(self).spec_visit(old(it)@).1,
    ;
}

/// The effect of visiting every item of a forest in order, each item after
/// its own descendants.
pub open spec fn spec_visit_items<V: ItemVisitor>(v: V, items: Seq<ItemView>) -> (V, Seq<ItemView>)
    decreases items,
{
    if items.len() == 0 {
        (v, Seq::<ItemView>::empty())
    } else {
        let r1 = spec_visit_item(v, items.first());
        let r2 = spec_visit_items(r1.0, items.drop_first());
        (r2.0, seq![r1.1] + r2.1)
    }
}

/// The effect of visiting one tree: the descendants of a chapter are visited
/// first, then the callback runs on the chapter itself (holding its
/// already-visited descendants).
pub open spec fn spec_visit_item<V: ItemVisitor>(v: V, it: ItemView) -> (V, ItemView)
    decreases it,
{
    match it {
        ItemView::Separator => v.spec_visit(ItemView::Separator),
        ItemView::Chapter(ch) => {
            let r = spec_visit_items(v, ch.sub_items);
            r.0.spec_visit(
                ItemView::Chapter(
                    ChapterView {
                        name: ch.name,
                        content: ch.content,
                        number: ch.number,
                        sub_items: r.1,
                        path: ch.path,
                        parent_names: ch.parent_names,
                    },
                ),
            )
        }
    }
}

/// Visit one item: descendants first, then the item itself.
fn visit_item<V: ItemVisitor>(v: &mut V, it: BookItem) -> (r: BookItem)
    ensures
        *final(v) == spec_visit_item(*old(v), it@).0,
        r@ == spec_visit_item(*old(v), it@).1,
    decreases item_size(it@), 0int,
{
    match it {
        BookItem::Separator => {
            let mut slot = BookItem::Separator;
            v.visit(&mut slot);
            proof {
                assert(it@ == ItemView::Separator);
            }
            slot
        }
        BookItem::Chapter(mut ch) => {
            let ghost ch0 = ch;
            proof {
                assert(it@ == ItemView::Chapter(chapter_view(ch0)));
                assert(ch.sub_items@.skip(0) =~= ch.sub_items@);
            }
            visit_items_from(v, &mut ch.sub_items, 0);
            let ghost chmid = ch;
            proof {
                assert(chmid.sub_items@.skip(0) =~= chmid.sub_items@);
            }
            let mut slot = BookItem::Chapter(ch);
            v.visit(&mut slot);
            proof {
                let r = spec_visit_items(*old(v), items_view(ch0.sub_items@));
                assert(items_view(chmid.sub_items@) == r.1);
                assert(chapter_view(chmid) == (ChapterView {
                    name: ch0.name@,
                    content: ch0.content@,
                    number: chapter_view(ch0).number,
                    sub_items: r.1,
                    path: ch0.path@,
                    parent_names: strings_view(ch0.parent_names@),
                }));
            }
            slot
        }
    }
}

/// Visit every item of `items` from index `i` on, in order.
fn visit_items_from<V: ItemVisitor>(v: &mut V, items: &mut Vec<BookItem>, i: usize)
    requires
        i <= old(items).len(),
    ensures
        final(items)@.len() == old(items)@.len(),
        forall|j: int| 0 <= j < i ==> final(items)@[j] == old(items)@[j],
        *final(v) == spec_visit_items(*old(v), items_view(old(items)@.skip(i as int))).0,
        items_view(final(items)@.skip(i as int)) == spec_visit_items(
            *old(v),
            items_view(old(items)@.skip(i as int)),
        ).1,
    decreases items_size(items_view(items@.skip(i as int))), items@.len() - i + 1,
{
    let ghost orig = items@;
    let ghost pre = items_view(orig.skip(i as int));
    proof {
        lemma_items_view_index(orig.skip(i as int));
    }
    if i == items.len() {
        proof {
            assert(orig.skip(i as int) =~= Seq::<BookItem>::empty());
            assert(items_view(Seq::<BookItem>::empty()) =~= Seq::<ItemView>::empty());
        }
        return ;
    }
    proof {
        assert(pre[0] == item_view(orig.skip(i as int)[0]));
        assert(orig.skip(i as int)[0] == orig[i as int]);
        lemma_item_size_le(pre, 0);
    }
    let it = items.remove(i);
    let it2 = visit_item(v, it);
    let ghost vmid = *v;
    items.insert(i, it2);
    let ghost mid = items@;
    proof {
        assert(mid =~= orig.update(i as int, it2));
        assert(mid.skip(i + 1) =~= orig.skip(i + 1));
        assert(pre.drop_first() =~= items_view(orig.skip(i + 1))) by {
            lemma_items_view_index(orig.skip(i + 1));
            assert(forall|k: int|
                0 <= k < orig.skip(i + 1).len() ==> #[trigger] orig.skip(i + 1)[k] == orig.skip(
                    i as int,
                )[k + 1]);
        }
        assert(items_size(items_view(mid.skip(i + 1))) < items_size(pre)) by {
            assert(item_size(pre.first()) >= 1);
        }
    }
    visit_items_from(v, items, i + 1);
    proof {
        let fin = items@;
        let r1 = spec_visit_item(*old(v), pre.first());
        let r2 = spec_visit_items(r1.0, pre.drop_first());
        assert(pre.first() == item_view(orig[i as int]));
        assert(r1.0 == vmid);
        assert(r1.1 == it2@);
        assert(spec_visit_items(*old(v), pre) == (r2.0, seq![r1.1] + r2.1));
        assert(items_view(mid.skip(i + 1)) == items_view(orig.skip(i + 1)));
        assert(r2 == spec_visit_items(vmid, items_view(mid.skip(i + 1))));
        assert(fin[i as int] == mid[i as int]);
        assert(mid[i as int] == it2);
        assert(items_view(fin.skip(i as int)) =~= seq![r1.1] + r2.1) by {
            lemma_items_view_index(fin.skip(i as int));
            lemma_items_view_index(fin.skip(i + 1));
            assert(forall|k: int|
                0 <= k < fin.skip(i + 1).len() ==> #[trigger] fin.skip(i + 1)[k] == fin.skip(
                    i as int,
                )[k + 1]);
            assert(fin.skip(i as int)[0] == fin[i as int]);
            assert(item_view(it2) == r1.1);
            assert(items_view(fin.skip(i + 1)) == r2.1);
        }
    }
}

impl Book {
    /// Recursively apply a visitor to each item in the book, allowing it to
    /// mutate them.  A chapter's descendants are visited before the chapter's
    /// own slot, so a callback that inspects children sees them already
    /// visited.
    pub fn for_each_mut<V: ItemVisitor>(&mut self, visitor: &mut V)
        ensures
            *final(visitor) == spec_visit_items(*old(visitor), old(self)@).0,
            final(self)@ == spec_visit_items(*old(visitor), old(self)@).1,
    {
        for_each_mut(visitor, &mut self.sections);
    }
}

/// Recursively apply a visitor to each item of a forest, in order, each item
/// after its own descendants.
pub fn for_each_mut<V: ItemVisitor>(visitor: &mut V, items: &mut Vec<BookItem>)
    ensures
        *final(visitor) == spec_visit_items(*old(visitor), items_view(old(items)@)).0,
        items_view(final(items)@) == spec_visit_items(*old(visitor), items_view(old(items)@)).1,
{
    proof {
        assert(items@.skip(0) =~= items@);
    }
    visit_items_from(visitor, items, 0);
    proof {
        assert(final(items)@.skip(0) =~= final(items)@);
    }
}

/// A visitor that changes nothing and counts how often it is invoked,
/// saturating at the largest counter value.
pub struct CountingVisitor {
    /// How many items have been visited.
    pub count: u64,
}

impl ItemVisitor for CountingVisitor {
    open spec fn spec_visit(self, it: ItemView) -> (Self, ItemView) {
        (
            CountingVisitor {
                count: if self.count < u64::MAX {
                    (self.count + 1) as u64
                } else {
                    u64::MAX
                },
            },
            it,
        )
    }

    fn visit(&mut self, it: &mut BookItem) {
        if self.count < u64::MAX {
            self.count = self.count + 1;
        }
    }
}

/// A mutating full-tree visit invokes its callback exactly once per item,
/// chapters and separators alike, nested items included: counting from `c`
/// over a forest of `items_size(items)` items ends at exactly their sum, and
/// the counting visitor leaves the forest unchanged.
pub proof fn lemma_visit_counts_every_item(v: CountingVisitor, items: Seq<ItemView>)
    requires
        v.count + items_size(items) <= u64::MAX,
    ensures
        spec_visit_items(v, items).0.count == v.count + items_size(items),
        spec_visit_items(v, items).1 == items,
    decreases items,
{
    if items.len() == 0 {
    } else {
        lemma_visit_counts_one_item(v, items.first());
        let r1 = spec_visit_item(v, items.first());
        lemma_visit_counts_every_item(r1.0, items.drop_first());
        let r2 = spec_visit_items(r1.0, items.drop_first());
        assert(seq![r1.1] + r2.1 =~= items);
    }
}

/// Counting over one tree ends at exactly the tree's size.
pub proof fn lemma_visit_counts_one_item(v: CountingVisitor, it: ItemView)
    requires
        v.count + item_size(it) <= u64::MAX,
    ensures
        spec_visit_item(v, it).0.count == v.count + item_size(it),
        spec_visit_item(v, it).1 == it,
    decreases it,
{
    match it {
        ItemView::Separator => {}
        ItemView::Chapter(ch) => {
            lemma_visit_counts_every_item(v, ch.sub_items);
        }
    }
}

impl From<Chapter> for BookItem {
    /// Wrap a chapter as a book item.
    fn from(other: Chapter) -> (it: BookItem)
        ensures
            it == BookItem::Chapter(other),
    {
        BookItem::Chapter(other)
    }
}

impl vstd::std_specs::convert::FromSpecImpl<Chapter> for BookItem {
    open spec fn obeys_from_spec() -> bool {
        true
    }

    open spec fn from_spec(other: Chapter) -> BookItem {
        BookItem::Chapter(other)
    }
}

} // verus!
