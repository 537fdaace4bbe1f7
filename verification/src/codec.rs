//! Wire formats for carrying a book tree to a plugin and back.
//!
//! Both formats share one intermediate representation: the tree is flattened
//! into a stream of unsigned 64-bit *atoms* (tag discriminants,
//! length prefixes, character scalar values), and the atom stream is then
//! serialized either as raw little-endian bytes (the compact binary wire) or
//! as ASCII hexadecimal digits (the text wire).  Decoding is the exact
//! inverse; round trips are proved, not assumed.

use vstd::prelude::*;

use crate::book::{Book, BookItem, Chapter, ChapterView, ItemView, SectionNumber, items_view};

verus! {

/// Atom tagging a separator item.
pub const TAG_SEPARATOR: u64 = 0;

/// Atom tagging a chapter item.
pub const TAG_CHAPTER: u64 = 1;

/// Atom marking an absent section number.
pub const NUM_ABSENT: u64 = 0;

/// Atom marking a present section number.
pub const NUM_PRESENT: u64 = 1;

/// The unicode scalar values: what a character can hold, and exactly the
/// values `char::from_u32` accepts.
pub open spec fn is_scalar_value(v: u64) -> bool {
    v < 0xD800 || (0xE000 <= v && v <= 0x10FFFF)
}

/// The scalar atoms of a character sequence.
pub open spec fn char_atoms(s: Seq<char>) -> Seq<u64> {
    s.map(|i: int, c: char| c as u64)
}

/// Atoms of a string: its length, then one scalar per character.
pub open spec fn atoms_of_str(s: Seq<char>) -> Seq<u64> {
    seq![s.len() as u64] + char_atoms(s)
}

/// Atoms of a section number: its length, then its entries.
pub open spec fn atoms_of_u32s(v: Seq<u32>) -> Seq<u64> {
    seq![v.len() as u64] + v.map(|i: int, x: u32| x as u64)
}

/// Atoms of an optional section number: an explicit presence marker, then the
/// number itself if present.
pub open spec fn atoms_of_number(n: Option<Seq<u32>>) -> Seq<u64> {
    match n {
        Option::None => seq![NUM_ABSENT],
        Option::Some(v) => seq![NUM_PRESENT] + atoms_of_u32s(v),
    }
}

/// Atoms of a list of strings, one after the other (the count travels
/// separately).
pub open spec fn atoms_of_strs(v: Seq<Seq<char>>) -> Seq<u64>
    decreases v,
{
    if v.len() == 0 {
        Seq::empty()
    } else {
        atoms_of_str(v.first()) + atoms_of_strs(v.drop_first())
    }
}

/// Atoms of one item: a tag, then the chapter fields for a chapter.
pub open spec fn atoms_of_item(it: ItemView) -> Seq<u64>
    decreases it,
{
    match it {
        ItemView::Separator => seq![TAG_SEPARATOR],
        ItemView::Chapter(ch) => seq![TAG_CHAPTER] + atoms_of_chapter(ch),
    }
}

/// Atoms of a chapter: name, content, optional number, counted sub-items,
/// path, counted parent names.
pub open spec fn atoms_of_chapter(ch: ChapterView) -> Seq<u64>
    decreases ch,
{
    atoms_of_str(ch.name) + atoms_of_str(ch.content) + atoms_of_number(ch.number) + seq![
        ch.sub_items.len() as u64,
    ] + atoms_of_items(ch.sub_items) + atoms_of_str(ch.path) + seq![ch.parent_names.len() as u64]
        + atoms_of_strs(ch.parent_names)
}

/// Atoms of a forest, one item after the other.
pub open spec fn atoms_of_items(items: Seq<ItemView>) -> Seq<u64>
    decreases items,
{
    if items.len() == 0 {
        Seq::empty()
    } else {
        atoms_of_item(items.first()) + atoms_of_items(items.drop_first())
    }
}

/// Atoms of a whole book: the section count, then the sections.
pub open spec fn atoms_of_book(b: Seq<ItemView>) -> Seq<u64> {
    seq![b.len() as u64] + atoms_of_items(b)
}

/// A string short enough for its length to travel as one atom.  Every string
/// held in memory satisfies this.
pub open spec fn str_bounded(s: Seq<char>) -> bool {
    s.len() <= u64::MAX
}

/// A bounded list of bounded strings.
pub open spec fn strs_bounded(v: Seq<Seq<char>>) -> bool {
    v.len() <= u64::MAX && forall|i: int| 0 <= i < v.len() ==> str_bounded(#[trigger] v[i])
}

/// A bounded optional section number.
pub open spec fn number_bounded(n: Option<Seq<u32>>) -> bool {
    match n {
        Option::None => true,
        Option::Some(v) => v.len() <= u64::MAX,
    }
}

/// A tree all of whose lengths fit in one atom.  Every tree held in memory
/// satisfies this.
pub open spec fn item_bounded(it: ItemView) -> bool
    decreases it,
{
    match it {
        ItemView::Separator => true,
        ItemView::Chapter(ch) => str_bounded(ch.name) && str_bounded(ch.content)
            && number_bounded(ch.number) && items_bounded(ch.sub_items) && str_bounded(ch.path)
            && strs_bounded(ch.parent_names),
    }
}

/// A bounded forest of bounded trees.
pub open spec fn items_bounded(items: Seq<ItemView>) -> bool
    decreases items,
{
    items.len() <= u64::MAX && (items.len() == 0 || (item_bounded(items.first()) && items_bounded(
        items.drop_first(),
    )))
}

/// Read one atom.
pub open spec fn parse_atom(atoms: Seq<u64>, pos: int) -> Option<(u64, int)> {
    if 0 <= pos < atoms.len() {
        Option::Some((atoms[pos], pos + 1))
    } else {
        Option::None
    }
}

/// Read a length-prefixed string.  Fails on a truncated stream or on an atom
/// that is not a unicode scalar value.
pub open spec fn parse_str(atoms: Seq<u64>, pos: int) -> Option<(Seq<char>, int)> {
    match parse_atom(atoms, pos) {
        Option::None => Option::None,
        Option::Some((n, p1)) => {
            let ni = n as int;
            if p1 + ni <= atoms.len() && (forall|k: int|
                p1 <= k < p1 + ni ==> is_scalar_value(#[trigger] atoms[k])) {
                Option::Some((Seq::new(n as nat, |j: int| atoms[p1 + j] as char), p1 + ni))
            } else {
                Option::None
            }
        },
    }
}

/// Read a length-prefixed section number.  Fails on a truncated stream or on
/// an entry that does not fit its type.
pub open spec fn parse_u32s(atoms: Seq<u64>, pos: int) -> Option<(Seq<u32>, int)> {
    match parse_atom(atoms, pos) {
        Option::None => Option::None,
        Option::Some((n, p1)) => {
            let ni = n as int;
            if p1 + ni <= atoms.len() && (forall|k: int|
                p1 <= k < p1 + ni ==> #[trigger] atoms[k] <= u32::MAX) {
                Option::Some((Seq::new(n as nat, |j: int| atoms[p1 + j] as u32), p1 + ni))
            } else {
                Option::None
            }
        },
    }
}

/// Read an optional section number behind its presence marker.
pub open spec fn parse_number(atoms: Seq<u64>, pos: int) -> Option<(Option<Seq<u32>>, int)> {
    match parse_atom(atoms, pos) {
        Option::None => Option::None,
        Option::Some((t, p1)) => {
            if t == NUM_ABSENT {
                Option::Some((Option::None, p1))
            } else if t == NUM_PRESENT {
                match parse_u32s(atoms, p1) {
                    Option::None => Option::None,
                    Option::Some((v, p2)) => Option::Some((Option::Some(v), p2)),
                }
            } else {
                Option::None
            }
        },
    }
}

/// Read `count` strings, one after the other.
pub open spec fn parse_strs(atoms: Seq<u64>, pos: int, count: int) -> Option<
    (Seq<Seq<char>>, int),
>
    decreases atoms.len() - pos, count,
{
    if count <= 0 {
        if count == 0 {
            Option::Some((Seq::empty(), pos))
        } else {
            Option::None
        }
    } else {
        match parse_str(atoms, pos) {
            Option::None => Option::None,
            Option::Some((s, p1)) => {
                if p1 <= pos || p1 > atoms.len() {
                    Option::None
                } else {
                    match parse_strs(atoms, p1, count - 1) {
                        Option::None => Option::None,
                        Option::Some((v, p2)) => Option::Some((seq![s] + v, p2)),
                    }
                }
            },
        }
    }
}

/// Read one item: a tag, then the chapter fields for a chapter tag.
pub open spec fn parse_item(atoms: Seq<u64>, pos: int) -> Option<(ItemView, int)>
    decreases atoms.len() - pos, 0int, 0int,
{
    match parse_atom(atoms, pos) {
        Option::None => Option::None,
        Option::Some((t, p1)) => {
            if t == TAG_SEPARATOR {
                Option::Some((ItemView::Separator, p1))
            } else if t == TAG_CHAPTER {
                match parse_chapter(atoms, p1) {
                    Option::None => Option::None,
                    Option::Some((ch, p2)) => Option::Some((ItemView::Chapter(ch), p2)),
                }
            } else {
                Option::None
            }
        },
    }
}

/// Read the fields of a chapter.
pub open spec fn parse_chapter(atoms: Seq<u64>, pos: int) -> Option<(ChapterView, int)>
    decreases atoms.len() - pos, 0int, 0int,
{
    match parse_str(atoms, pos) {
        Option::None => Option::None,
        Option::Some((name, p1)) => match parse_str(atoms, p1) {
            Option::None => Option::None,
            Option::Some((content, p2)) => match parse_number(atoms, p2) {
                Option::None => Option::None,
                Option::Some((number, p3)) => match parse_atom(atoms, p3) {
                    Option::None => Option::None,
                    Option::Some((subn, p4)) => {
                        if p4 <= pos || p4 > atoms.len() {
                            Option::None
                        } else {
                            match parse_items(atoms, p4, subn as int) {
                                Option::None => Option::None,
                                Option::Some((subs, p5)) => match parse_str(atoms, p5) {
                                    Option::None => Option::None,
                                    Option::Some((path, p6)) => match parse_atom(atoms, p6) {
                                        Option::None => Option::None,
                                        Option::Some((pn, p7)) => match parse_strs(
                                            atoms,
                                            p7,
                                            pn as int,
                                        ) {
                                            Option::None => Option::None,
                                            Option::Some((parents, p8)) => Option::Some(
                                                (
                                                    ChapterView {
                                                        name,
                                                        content,
                                                        number,
                                                        sub_items: subs,
                                                        path,
                                                        parent_names: parents,
                                                    },
                                                    p8,
                                                ),
                                            ),
                                        },
                                    },
                                },
                            }
                        }
                    },
                },
            },
        },
    }
}

/// Read `count` items, one after the other.
pub open spec fn parse_items(atoms: Seq<u64>, pos: int, count: int) -> Option<
    (Seq<ItemView>, int),
>
    decreases atoms.len() - pos, 1int, count,
{
    if count <= 0 {
        if count == 0 {
            Option::Some((Seq::empty(), pos))
        } else {
            Option::None
        }
    } else {
        match parse_item(atoms, pos) {
            Option::None => Option::None,
            Option::Some((it, p1)) => {
                if p1 <= pos || p1 > atoms.len() {
                    Option::None
                } else {
                    match parse_items(atoms, p1, count - 1) {
                        Option::None => Option::None,
                        Option::Some((rest, p2)) => Option::Some((seq![it] + rest, p2)),
                    }
                }
            },
        }
    }
}

/// A character always holds a unicode scalar value, and the casts between a
/// character and its scalar value invert each other.
proof fn lemma_char_scalar(c: char)
    ensures
        is_scalar_value(c as u64),
        (c as u64) as char == c,
{
}

/// Splitting a matched subrange at a concatenation boundary.
pub(crate) proof fn lemma_subrange_split(atoms: Seq<u64>, pos: int, a: Seq<u64>, b: Seq<u64>)
    requires
        0 <= pos,
        pos + a.len() + b.len() <= atoms.len(),
        atoms.subrange(pos, pos + a.len() + b.len()) == a + b,
    ensures
        atoms.subrange(pos, pos + a.len()) == a,
        atoms.subrange(pos + a.len(), pos + a.len() + b.len()) == b,
{
    let l = a.len() + b.len();
    assert(atoms.subrange(pos, pos + a.len()) =~= a) by {
        assert forall|k: int| 0 <= k < a.len() implies atoms.subrange(pos, pos + a.len() as int)[k]
            == a[k] by {
            assert(atoms.subrange(pos, pos + l)[k] == atoms[pos + k]);
            assert(atoms.subrange(pos, pos + a.len() as int)[k] == atoms[pos + k]);
            assert((a + b)[k] == a[k]);
        }
    }
    assert(atoms.subrange(pos + a.len(), pos + l) =~= b) by {
        assert forall|k: int| 0 <= k < b.len() implies atoms.subrange(
            pos + a.len(),
            pos + l,
        )[k] == b[k] by {
            assert(atoms.subrange(pos + a.len(), pos + l)[k] == atoms[pos + a.len() + k]);
            assert(atoms.subrange(pos, pos + l)[a.len() + k] == atoms[pos + (a.len() + k)]);
            assert((a + b)[a.len() + k] == b[k]);
        }
    }
}

/// Parsing a string at its own encoding succeeds and consumes exactly it.
pub(crate) proof fn lemma_parse_str_completes(atoms: Seq<u64>, pos: int, s: Seq<char>)
    requires
        str_bounded(s),
        0 <= pos,
        pos + atoms_of_str(s).len() <= atoms.len(),
        atoms.subrange(pos, pos + atoms_of_str(s).len()) == atoms_of_str(s),
    ensures
        parse_str(atoms, pos) == Option::Some((s, pos + atoms_of_str(s).len())),
{
    let enc = atoms_of_str(s);
    let l = enc.len() as int;
    assert(l == 1 + s.len());
    assert(atoms.subrange(pos, pos + l)[0] == atoms[pos]);
    assert(atoms[pos] == s.len() as u64);
    let p1 = pos + 1;
    let ni = s.len() as int;
    assert forall|k: int| p1 <= k < p1 + ni implies is_scalar_value(#[trigger] atoms[k]) by {
        let j = k - p1;
        lemma_char_scalar(s[j]);
        assert(atoms.subrange(pos, pos + l)[1 + j] == atoms[pos + (1 + j)]);
        assert(enc[1 + j] == char_atoms(s)[j]);
        assert(char_atoms(s)[j] == s[j] as u64);
        assert(atoms[k] == s[j] as u64);
    }
    assert(Seq::new(s.len(), |j: int| atoms[p1 + j] as char) =~= s) by {
        assert forall|j: int| 0 <= j < ni implies atoms[p1 + j] as char == s[j] by {
            lemma_char_scalar(s[j]);
            assert(atoms.subrange(pos, pos + l)[1 + j] == atoms[pos + (1 + j)]);
            assert(enc[1 + j] == char_atoms(s)[j]);
            assert(char_atoms(s)[j] == s[j] as u64);
            assert(atoms[p1 + j] == s[j] as u64);
        }
    }
}

/// Parsing a section number at its own encoding succeeds and consumes
/// exactly it.
proof fn lemma_parse_u32s_completes(atoms: Seq<u64>, pos: int, v: Seq<u32>)
    requires
        v.len() <= u64::MAX,
        0 <= pos,
        pos + atoms_of_u32s(v).len() <= atoms.len(),
        atoms.subrange(pos, pos + atoms_of_u32s(v).len()) == atoms_of_u32s(v),
    ensures
        parse_u32s(atoms, pos) == Option::Some((v, pos + atoms_of_u32s(v).len())),
{
    let enc = atoms_of_u32s(v);
    let l = enc.len() as int;
    assert(l == 1 + v.len());
    assert(atoms.subrange(pos, pos + l)[0] == atoms[pos]);
    assert(atoms[pos] == v.len() as u64);
    let p1 = pos + 1;
    let ni = v.len() as int;
    let m = v.map(|i: int, x: u32| x as u64);
    assert forall|k: int| p1 <= k < p1 + ni implies #[trigger] atoms[k] <= u32::MAX by {
        let j = k - p1;
        assert(atoms.subrange(pos, pos + l)[1 + j] == atoms[pos + (1 + j)]);
        assert(enc[1 + j] == m[j]);
        assert(m[j] == v[j] as u64);
        assert(atoms[k] == v[j] as u64);
    }
    assert(Seq::new(v.len(), |j: int| atoms[p1 + j] as u32) =~= v) by {
        assert forall|j: int| 0 <= j < ni implies atoms[p1 + j] as u32 == v[j] by {
            assert(atoms.subrange(pos, pos + l)[1 + j] == atoms[pos + (1 + j)]);
            assert(enc[1 + j] == m[j]);
            assert(m[j] == v[j] as u64);
            assert(atoms[p1 + j] == v[j] as u64);
        }
    }
}

/// Parsing an optional section number at its own encoding succeeds and
/// consumes exactly it.
proof fn lemma_parse_number_completes(atoms: Seq<u64>, pos: int, n: Option<Seq<u32>>)
    requires
        number_bounded(n),
        0 <= pos,
        pos + atoms_of_number(n).len() <= atoms.len(),
        atoms.subrange(pos, pos + atoms_of_number(n).len()) == atoms_of_number(n),
    ensures
        parse_number(atoms, pos) == Option::Some((n, pos + atoms_of_number(n).len())),
{
    let enc = atoms_of_number(n);
    let l = enc.len() as int;
    assert(atoms.subrange(pos, pos + l)[0] == atoms[pos]);
    match n {
        Option::None => {
            assert(atoms[pos] == NUM_ABSENT);
        }
        Option::Some(v) => {
            assert(atoms[pos] == NUM_PRESENT);
            lemma_subrange_split(atoms, pos, seq![NUM_PRESENT], atoms_of_u32s(v));
            lemma_parse_u32s_completes(atoms, pos + 1, v);
        }
    }
}

/// Parsing a counted list of strings at its own encoding succeeds and
/// consumes exactly it.
proof fn lemma_parse_strs_completes(atoms: Seq<u64>, pos: int, v: Seq<Seq<char>>)
    requires
        strs_bounded(v),
        0 <= pos,
        pos + atoms_of_strs(v).len() <= atoms.len(),
        atoms.subrange(pos, pos + atoms_of_strs(v).len()) == atoms_of_strs(v),
    ensures
        parse_strs(atoms, pos, v.len() as int) == Option::Some(
            (v, pos + atoms_of_strs(v).len()),
        ),
    decreases v,
{
    if v.len() == 0 {
        assert(Seq::<Seq<char>>::empty() =~= v);
    } else {
        let e0 = atoms_of_str(v.first());
        let rest = atoms_of_strs(v.drop_first());
        lemma_subrange_split(atoms, pos, e0, rest);
        assert(str_bounded(v.first())) by {
            assert(v[0] == v.first());
        }
        lemma_parse_str_completes(atoms, pos, v.first());
        let p1 = pos + e0.len();
        assert(strs_bounded(v.drop_first())) by {
            assert forall|i: int| 0 <= i < v.drop_first().len() implies str_bounded(
                #[trigger] v.drop_first()[i],
            ) by {
                assert(v.drop_first()[i] == v[i + 1]);
            }
        }
        lemma_parse_strs_completes(atoms, p1, v.drop_first());
        assert(seq![v.first()] + v.drop_first() =~= v);
    }
}

/// Every item encoding starts with its tag: it is never empty.
proof fn lemma_atoms_of_item_len(it: ItemView)
    ensures
        atoms_of_item(it).len() >= 1,
{
}

/// Parsing one item at its own encoding succeeds and consumes exactly it.
proof fn lemma_parse_item_completes(atoms: Seq<u64>, pos: int, it: ItemView)
    requires
        item_bounded(it),
        0 <= pos,
        pos + atoms_of_item(it).len() <= atoms.len(),
        atoms.subrange(pos, pos + atoms_of_item(it).len()) == atoms_of_item(it),
    ensures
        parse_item(atoms, pos) == Option::Some((it, pos + atoms_of_item(it).len())),
    decreases it, 0int,
{
    let enc = atoms_of_item(it);
    match it {
        ItemView::Separator => {
            assert(atoms.subrange(pos, pos + 1)[0] == atoms[pos]);
            assert(atoms[pos] == TAG_SEPARATOR);
        }
        ItemView::Chapter(ch) => {
            lemma_subrange_split(atoms, pos, seq![TAG_CHAPTER], atoms_of_chapter(ch));
            assert(atoms.subrange(pos, pos + 1)[0] == atoms[pos]);
            assert(atoms[pos] == TAG_CHAPTER);
            lemma_parse_chapter_completes(atoms, pos + 1, ch);
        }
    }
}

/// Parsing the fields of a chapter at their own encoding succeeds and
/// consumes exactly them.
proof fn lemma_parse_chapter_completes(atoms: Seq<u64>, pos: int, ch: ChapterView)
    requires
        item_bounded(ItemView::Chapter(ch)),
        0 <= pos,
        pos + atoms_of_chapter(ch).len() <= atoms.len(),
        atoms.subrange(pos, pos + atoms_of_chapter(ch).len()) == atoms_of_chapter(ch),
    ensures
        parse_chapter(atoms, pos) == Option::Some((ch, pos + atoms_of_chapter(ch).len())),
    decreases ch, 0int,
{
    let e1 = atoms_of_str(ch.name);
    let e2 = atoms_of_str(ch.content);
    let e3 = atoms_of_number(ch.number);
    let e4 = seq![ch.sub_items.len() as u64];
    let e5 = atoms_of_items(ch.sub_items);
    let e6 = atoms_of_str(ch.path);
    let e7 = seq![ch.parent_names.len() as u64];
    let e8 = atoms_of_strs(ch.parent_names);
    let enc = atoms_of_chapter(ch);
    assert(enc =~= e1 + (e2 + (e3 + (e4 + (e5 + (e6 + (e7 + e8)))))));
    let q1 = pos + e1.len();
    let q2 = q1 + e2.len();
    let q3 = q2 + e3.len();
    let q4 = q3 + e4.len();
    let q5 = q4 + e5.len();
    let q6 = q5 + e6.len();
    let q7 = q6 + e7.len();
    let q8 = q7 + e8.len();
    lemma_subrange_split(atoms, pos, e1, e2 + (e3 + (e4 + (e5 + (e6 + (e7 + e8))))));
    lemma_subrange_split(atoms, q1, e2, e3 + (e4 + (e5 + (e6 + (e7 + e8)))));
    lemma_subrange_split(atoms, q2, e3, e4 + (e5 + (e6 + (e7 + e8))));
    lemma_subrange_split(atoms, q3, e4, e5 + (e6 + (e7 + e8)));
    lemma_subrange_split(atoms, q4, e5, e6 + (e7 + e8));
    lemma_subrange_split(atoms, q5, e6, e7 + e8);
    lemma_subrange_split(atoms, q6, e7, e8);
    lemma_parse_str_completes(atoms, pos, ch.name);
    lemma_parse_str_completes(atoms, q1, ch.content);
    lemma_parse_number_completes(atoms, q2, ch.number);
    assert(atoms.subrange(q3, q4)[0] == atoms[q3]);
    assert(atoms[q3] == ch.sub_items.len() as u64);
    lemma_parse_items_completes(atoms, q4, ch.sub_items);
    lemma_parse_str_completes(atoms, q5, ch.path);
    assert(atoms.subrange(q6, q7)[0] == atoms[q6]);
    assert(atoms[q6] == ch.parent_names.len() as u64);
    lemma_parse_strs_completes(atoms, q7, ch.parent_names);
}

/// Parsing a counted forest at its own encoding succeeds and consumes
/// exactly it.
pub(crate) proof fn lemma_parse_items_completes(atoms: Seq<u64>, pos: int, items: Seq<ItemView>)
    requires
        items_bounded(items),
        0 <= pos,
        pos + atoms_of_items(items).len() <= atoms.len(),
        atoms.subrange(pos, pos + atoms_of_items(items).len()) == atoms_of_items(items),
    ensures
        parse_items(atoms, pos, items.len() as int) == Option::Some(
            (items, pos + atoms_of_items(items).len()),
        ),
    decreases items, 1int,
{
    if items.len() == 0 {
        assert(Seq::<ItemView>::empty() =~= items);
    } else {
        let e0 = atoms_of_item(items.first());
        let rest = atoms_of_items(items.drop_first());
        lemma_subrange_split(atoms, pos, e0, rest);
        lemma_parse_item_completes(atoms, pos, items.first());
        lemma_atoms_of_item_len(items.first());
        let p1 = pos + e0.len();
        lemma_parse_items_completes(atoms, p1, items.drop_first());
        assert(seq![items.first()] + items.drop_first() =~= items);
    }
}

/// Round trip at the atom level: parsing the encoding of any representable
/// book yields that book back, in full.
pub proof fn lemma_parse_book_completes(b: Seq<ItemView>)
    requires
        items_bounded(b),
    ensures
        parse_book(atoms_of_book(b)) == Option::Some(b),
{
    let atoms = atoms_of_book(b);
    assert(atoms.len() == 1 + atoms_of_items(b).len());
    assert(atoms.subrange(0, atoms.len() as int) =~= atoms);
    lemma_subrange_split(atoms, 0, seq![b.len() as u64], atoms_of_items(b));
    assert(atoms.subrange(0, 1)[0] == atoms[0]);
    assert(atoms[0] == b.len() as u64);
    lemma_parse_items_completes(atoms, 1, b);
}

/// A successful string parse advances, and stays within the stream.
proof fn lemma_parse_str_bounds(atoms: Seq<u64>, pos: int)
    requires
        0 <= pos <= atoms.len(),
    ensures
        match parse_str(atoms, pos) {
            Option::Some(sp) => pos < sp.1 <= atoms.len(),
            Option::None => true,
        },
{
}

/// A successful section-number parse advances, and stays within the stream.
proof fn lemma_parse_u32s_bounds(atoms: Seq<u64>, pos: int)
    requires
        0 <= pos <= atoms.len(),
    ensures
        match parse_u32s(atoms, pos) {
            Option::Some(sp) => pos < sp.1 <= atoms.len(),
            Option::None => true,
        },
{
}

/// A successful optional-number parse advances, and stays within the stream.
proof fn lemma_parse_number_bounds(atoms: Seq<u64>, pos: int)
    requires
        0 <= pos <= atoms.len(),
    ensures
        match parse_number(atoms, pos) {
            Option::Some(sp) => pos < sp.1 <= atoms.len(),
            Option::None => true,
        },
{
    match parse_atom(atoms, pos) {
        Option::None => {}
        Option::Some((t, p1)) => {
            lemma_parse_u32s_bounds(atoms, p1);
        }
    }
}

/// A successful string-list parse never retreats, and stays within the
/// stream.
proof fn lemma_parse_strs_bounds(atoms: Seq<u64>, pos: int, count: int)
    requires
        0 <= pos <= atoms.len(),
    ensures
        match parse_strs(atoms, pos, count) {
            Option::Some(sp) => pos <= sp.1 <= atoms.len(),
            Option::None => true,
        },
    decreases atoms.len() - pos, count,
{
    if count > 0 {
        match parse_str(atoms, pos) {
            Option::None => {}
            Option::Some((s, p1)) => {
                lemma_parse_str_bounds(atoms, pos);
                if pos < p1 <= atoms.len() {
                    lemma_parse_strs_bounds(atoms, p1, count - 1);
                }
            }
        }
    }
}

/// A successful item parse advances, and stays within the stream.
proof fn lemma_parse_item_bounds(atoms: Seq<u64>, pos: int)
    requires
        0 <= pos <= atoms.len(),
    ensures
        match parse_item(atoms, pos) {
            Option::Some(sp) => pos < sp.1 <= atoms.len(),
            Option::None => true,
        },
    decreases atoms.len() - pos, 0int, 0int,
{
    match parse_atom(atoms, pos) {
        Option::None => {}
        Option::Some((t, p1)) => {
            if t == TAG_CHAPTER {
                lemma_parse_chapter_bounds(atoms, p1);
            }
        }
    }
}

/// A successful chapter parse never retreats, and stays within the stream.
proof fn lemma_parse_chapter_bounds(atoms: Seq<u64>, pos: int)
    requires
        0 <= pos <= atoms.len(),
    ensures
        match parse_chapter(atoms, pos) {
            Option::Some(sp) => pos <= sp.1 <= atoms.len(),
            Option::None => true,
        },
    decreases atoms.len() - pos, 0int, 0int,
{
    match parse_str(atoms, pos) {
        Option::None => {}
        Option::Some((name, p1)) => {
            lemma_parse_str_bounds(atoms, pos);
            if pos < p1 <= atoms.len() {
                match parse_str(atoms, p1) {
                    Option::None => {}
                    Option::Some((content, p2)) => {
                        lemma_parse_str_bounds(atoms, p1);
                        match parse_number(atoms, p2) {
                            Option::None => {}
                            Option::Some((number, p3)) => {
                                lemma_parse_number_bounds(atoms, p2);
                                match parse_atom(atoms, p3) {
                                    Option::None => {}
                                    Option::Some((subn, p4)) => {
                                        if pos < p4 <= atoms.len() {
                                            lemma_parse_items_bounds(atoms, p4, subn as int);
                                            match parse_items(atoms, p4, subn as int) {
                                                Option::None => {}
                                                Option::Some((subs, p5)) => {
                                                    lemma_parse_str_bounds(atoms, p5);
                                                    match parse_str(atoms, p5) {
                                                        Option::None => {}
                                                        Option::Some((path, p6)) => {
                                                            match parse_atom(atoms, p6) {
                                                                Option::None => {}
                                                                Option::Some((pn, p7)) => {
                                                                    lemma_parse_strs_bounds(
                                                                        atoms,
                                                                        p7,
                                                                        pn as int,
                                                                    );
                                                                }
                                                            }
                                                        }
                                                    }
                                                }
                                            }
                                        }
                                    }
                                }
                            }
                        }
                    }
                }
            }
        }
    }
}

/// A successful forest parse never retreats, and stays within the stream.
proof fn lemma_parse_items_bounds(atoms: Seq<u64>, pos: int, count: int)
    requires
        0 <= pos <= atoms.len(),
    ensures
        match parse_items(atoms, pos, count) {
            Option::Some(sp) => pos <= sp.1 <= atoms.len(),
            Option::None => true,
        },
    decreases atoms.len() - pos, 1int, count,
{
    if count > 0 {
        match parse_item(atoms, pos) {
            Option::None => {}
            Option::Some((it, p1)) => {
                lemma_parse_item_bounds(atoms, pos);
                if pos < p1 <= atoms.len() {
                    lemma_parse_items_bounds(atoms, p1, count - 1);
                }
            }
        }
    }
}

/// Read a whole book and require that it consumes the entire stream.
pub open spec fn parse_book(atoms: Seq<u64>) -> Option<Seq<ItemView>> {
    match parse_atom(atoms, 0) {
        Option::None => Option::None,
        Option::Some((n, p1)) => match parse_items(atoms, p1, n as int) {
            Option::None => Option::None,
            Option::Some((items, p2)) => {
                if p2 == atoms.len() {
                    Option::Some(items)
                } else {
                    Option::None
                }
            },
        },
    }
}

/// Appending one string's atoms to an encoded list of strings.
proof fn lemma_atoms_of_strs_push(v: Seq<Seq<char>>, x: Seq<char>)
    ensures
        atoms_of_strs(v.push(x)) == atoms_of_strs(v) + atoms_of_str(x),
    decreases v,
{
    if v.len() == 0 {
        assert(v.push(x).drop_first() =~= Seq::<Seq<char>>::empty());
        assert(v.push(x).first() == x);
        assert(atoms_of_strs(Seq::<Seq<char>>::empty()) =~= Seq::<u64>::empty());
        assert(atoms_of_strs(v.push(x)) =~= atoms_of_strs(v) + atoms_of_str(x));
    } else {
        assert(v.push(x).drop_first() =~= v.drop_first().push(x));
        assert(v.push(x).first() == v.first());
        lemma_atoms_of_strs_push(v.drop_first(), x);
        assert(atoms_of_strs(v.push(x)) =~= atoms_of_strs(v) + atoms_of_str(x));
    }
}

/// Appending one item's atoms to an encoded forest.
proof fn lemma_atoms_of_items_push(v: Seq<ItemView>, x: ItemView)
    ensures
        atoms_of_items(v.push(x)) == atoms_of_items(v) + atoms_of_item(x),
    decreases v,
{
    if v.len() == 0 {
        assert(v.push(x).drop_first() =~= Seq::<ItemView>::empty());
        assert(v.push(x).first() == x);
        assert(atoms_of_items(Seq::<ItemView>::empty()) =~= Seq::<u64>::empty());
        assert(atoms_of_items(v.push(x)) =~= atoms_of_items(v) + atoms_of_item(x));
    } else {
        assert(v.push(x).drop_first() =~= v.drop_first().push(x));
        assert(v.push(x).first() == v.first());
        lemma_atoms_of_items_push(v.drop_first(), x);
        assert(atoms_of_items(v.push(x)) =~= atoms_of_items(v) + atoms_of_item(x));
    }
}

/// A forest stays bounded when one bounded item joins it.
proof fn lemma_items_bounded_push(v: Seq<ItemView>, x: ItemView)
    requires
        items_bounded(v),
        item_bounded(x),
        v.len() + 1 <= u64::MAX,
    ensures
        items_bounded(v.push(x)),
    decreases v,
{
    if v.len() == 0 {
        assert(v.push(x).drop_first() =~= Seq::<ItemView>::empty());
        assert(v.push(x).first() == x);
        assert(items_bounded(Seq::<ItemView>::empty()));
    } else {
        assert(v.push(x).drop_first() =~= v.drop_first().push(x));
        assert(v.push(x).first() == v.first());
        lemma_items_bounded_push(v.drop_first(), x);
        assert(item_bounded(v.push(x).first()));
        assert(items_bounded(v.push(x).drop_first()));
    }
}

/// Relies on char::from_u32: it returns `Some` exactly for unicode scalar
/// values, and the returned character has the given scalar value.
#[verifier::external_body]
fn char_from_u32(v: u32) -> (r: Option<char>)
    ensures
        r matches Option::Some(c) ==> c as u32 == v,
        r is Some <==> is_scalar_value(v as u64),
{
    char::from_u32(v)
}

/// Relies on String::push: it appends one character to the string.
#[verifier::external_body]
pub(crate) fn push_char(s: &mut String, c: char)
    ensures
        final(s)@ == old(s)@.push(c),
{
    s.push(c);
}

/// The two casts of a character, to 32 and to 64 bits, agree.
proof fn lemma_char_casts_agree(c: char)
    ensures
        (c as u32) as u64 == c as u64,
        c as u32 <= 0x10FFFF,
{
}

/// Append a string's atoms: its length, then one scalar per character.
pub(crate) fn enc_str(s: &String, out: &mut Vec<u64>)
    ensures
        final(out)@ == old(out)@ + atoms_of_str(s@),
        str_bounded(s@),
{
    let ghost out0 = out@;
    let n = s.as_str().unicode_len();
    out.push(n as u64);
    let mut j: usize = 0;
    while j < n
        invariant
            j <= n,
            n == s@.len(),
            out@ =~= out0 + seq![n as u64] + char_atoms(s@).take(j as int),
        decreases n - j,
    {
        let c = s.as_str().get_char(j);
        out.push(c as u64);
        proof {
            assert(char_atoms(s@)[j as int] == s@[j as int] as u64);
            assert(char_atoms(s@).take(j + 1) =~= char_atoms(s@).take(j as int).push(
                c as u64,
            ));
        }
        j = j + 1;
    }
    proof {
        assert(char_atoms(s@).take(s@.len() as int) =~= char_atoms(s@));
        assert(out0 + seq![n as u64] + char_atoms(s@) =~= out0 + atoms_of_str(s@));
    }
}

/// Append a section number's atoms: its length, then its entries.
fn enc_u32s(v: &Vec<u32>, out: &mut Vec<u64>)
    ensures
        final(out)@ == old(out)@ + atoms_of_u32s(v@),
        v@.len() <= u64::MAX,
{
    let ghost out0 = out@;
    let ghost m = v@.map(|i: int, x: u32| x as u64);
    out.push(v.len() as u64);
    let mut j: usize = 0;
    while j < v.len()
        invariant
            j <= v@.len(),
            m == v@.map(|i: int, x: u32| x as u64),
            out@ =~= out0 + seq![v@.len() as u64] + m.take(j as int),
        decreases v@.len() - j,
    {
        out.push(v[j] as u64);
        proof {
            assert(m[j as int] == v@[j as int] as u64);
            assert(m.take(j + 1) =~= m.take(j as int).push(v@[j as int] as u64));
        }
        j = j + 1;
    }
    proof {
        assert(m.take(v@.len() as int) =~= m);
        assert(out0 + seq![v@.len() as u64] + m =~= out0 + atoms_of_u32s(v@));
    }
}

/// Append an optional section number's atoms behind its presence marker.
fn enc_number(n: &Option<SectionNumber>, out: &mut Vec<u64>)
    ensures
        final(out)@ == old(out)@ + atoms_of_number(match *n {
            Option::None => Option::<Seq<u32>>::None,
            Option::Some(sn) => Option::Some(sn.0@),
        }),
        number_bounded(match *n {
            Option::None => Option::<Seq<u32>>::None,
            Option::Some(sn) => Option::Some(sn.0@),
        }),
{
    let ghost out0 = out@;
    match n {
        Option::None => {
            out.push(NUM_ABSENT);
            proof {
                assert(out@ =~= out0 + seq![NUM_ABSENT]);
            }
        }
        Option::Some(sn) => {
            out.push(NUM_PRESENT);
            enc_u32s(&sn.0, out);
            proof {
                assert(out@ =~= out0 + (seq![NUM_PRESENT] + atoms_of_u32s(sn.0@)));
            }
        }
    }
}

/// Append a list of strings' atoms, one string after the other.
fn enc_strs(v: &Vec<String>, out: &mut Vec<u64>)
    ensures
        final(out)@ == old(out)@ + atoms_of_strs(crate::book::strings_view(v@)),
        strs_bounded(crate::book::strings_view(v@)),
{
    let ghost out0 = out@;
    let ghost sv = crate::book::strings_view(v@);
    let mut j: usize = 0;
    while j < v.len()
        invariant
            j <= v@.len(),
            sv == crate::book::strings_view(v@),
            sv.len() == v@.len(),
            out@ =~= out0 + atoms_of_strs(sv.take(j as int)),
            forall|i: int| 0 <= i < j ==> str_bounded(#[trigger] sv[i]),
        decreases v@.len() - j,
    {
        enc_str(&v[j], out);
        proof {
            assert(sv[j as int] == v@[j as int]@);
            assert(sv.take(j + 1) =~= sv.take(j as int).push(sv[j as int]));
            lemma_atoms_of_strs_push(sv.take(j as int), sv[j as int]);
        }
        j = j + 1;
    }
    proof {
        assert(sv.take(v@.len() as int) =~= sv);
    }
}

/// Append one item's atoms: a tag, then the chapter fields for a chapter.
fn enc_item(it: &BookItem, out: &mut Vec<u64>)
    ensures
        final(out)@ == old(out)@ + atoms_of_item(it@),
        item_bounded(it@),
    decreases crate::book::item_size(it@), 0int,
{
    let ghost out0 = out@;
    match it {
        BookItem::Separator => {
            out.push(TAG_SEPARATOR);
            proof {
                assert(out@ =~= out0 + seq![TAG_SEPARATOR]);
                assert(atoms_of_item(it@) =~= seq![TAG_SEPARATOR]);
            }
        }
        BookItem::Chapter(ch) => {
            proof {
                assert(it@ == ItemView::Chapter(crate::book::chapter_view(*ch)));
                assert(crate::book::items_size(items_view(ch.sub_items@))
                    < crate::book::item_size(it@));
            }
            out.push(TAG_CHAPTER);
            enc_str(&ch.name, out);
            enc_str(&ch.content, out);
            enc_number(&ch.number, out);
            out.push(ch.sub_items.len() as u64);
            enc_items(&ch.sub_items, out);
            enc_str(&ch.path, out);
            out.push(ch.parent_names.len() as u64);
            enc_strs(&ch.parent_names, out);
            proof {
                let cv = crate::book::chapter_view(*ch);
                crate::book::lemma_items_view_index(ch.sub_items@);
                assert(cv.sub_items.len() == ch.sub_items@.len());
                assert(out@ =~= out0 + (seq![TAG_CHAPTER] + (atoms_of_str(cv.name) + atoms_of_str(
                    cv.content,
                ) + atoms_of_number(cv.number) + seq![cv.sub_items.len() as u64] + atoms_of_items(
                    cv.sub_items,
                ) + atoms_of_str(cv.path) + seq![cv.parent_names.len() as u64] + atoms_of_strs(
                    cv.parent_names,
                ))));
            }
        }
    }
}

/// Append a forest's atoms, one item after the other.
pub(crate) fn enc_items(items: &Vec<BookItem>, out: &mut Vec<u64>)
    ensures
        final(out)@ == old(out)@ + atoms_of_items(items_view(items@)),
        items_bounded(items_view(items@)),
    decreases crate::book::items_size(items_view(items@)), items@.len() + 1,
{
    let ghost out0 = out@;
    let ghost iv = items_view(items@);
    proof {
        crate::book::lemma_items_view_index(items@);
    }
    let mut j: usize = 0;
    while j < items.len()
        invariant
            j <= items@.len(),
            iv == items_view(items@),
            iv.len() == items@.len(),
            forall|i: int| 0 <= i < items@.len() ==> #[trigger] iv[i] == crate::book::item_view(
                items@[i],
            ),
            out@ =~= out0 + atoms_of_items(iv.take(j as int)),
            items_bounded(iv.take(j as int)),
        decreases items@.len() - j,
    {
        proof {
            crate::book::lemma_item_size_le(iv, j as int);
        }
        enc_item(&items[j], out);
        proof {
            assert(iv.take(j + 1) =~= iv.take(j as int).push(iv[j as int]));
            lemma_atoms_of_items_push(iv.take(j as int), iv[j as int]);
            lemma_items_bounded_push(iv.take(j as int), iv[j as int]);
        }
        j = j + 1;
    }
    proof {
        assert(iv.take(items@.len() as int) =~= iv);
    }
}

/// Ghost view of an optional section number.
pub open spec fn number_view(n: Option<SectionNumber>) -> Option<Seq<u32>> {
    match n {
        Option::None => Option::None,
        Option::Some(sn) => Option::Some(sn.0@),
    }
}

/// Read a length-prefixed string from the atom stream.
pub(crate) fn dec_str(atoms: &Vec<u64>, pos: usize) -> (r: Option<(String, usize)>)
    requires
        pos <= atoms@.len(),
    ensures
        match r {
            Option::Some(sp) => parse_str(atoms@, pos as int) == Option::Some(
                (sp.0@, sp.1 as int),
            ) && pos < sp.1 <= atoms@.len(),
            Option::None => parse_str(atoms@, pos as int) is None,
        },
{
    if pos >= atoms.len() {
        return Option::None;
    }
    let n = atoms[pos];
    let p1 = pos + 1;
    let rem = atoms.len() - p1;
    if n > rem as u64 {
        return Option::None;
    }
    let nu = n as usize;
    let alen = atoms.len();
    let mut s = String::new();
    let mut j: usize = 0;
    while j < nu
        invariant
            j <= nu,
            nu == n as int,
            pos < atoms@.len(),
            p1 == pos + 1,
            alen == atoms@.len(),
            p1 + nu <= alen,
            n == atoms@[pos as int],
            forall|k: int| p1 <= k < p1 + j ==> is_scalar_value(#[trigger] atoms@[k]),
            s@ =~= Seq::new(j as nat, |q: int| atoms@[p1 + q] as char),
        decreases nu - j,
    {
        let v = atoms[p1 + j];
        if v > 0x10FFFF {
            proof {
                assert(!is_scalar_value(atoms@[p1 + j as int]));
            }
            return Option::None;
        }
        match char_from_u32(v as u32) {
            Option::None => {
                proof {
                    assert((v as u32) as u64 == v);
                    assert(!is_scalar_value(atoms@[p1 + j as int]));
                }
                return Option::None;
            }
            Option::Some(c) => {
                push_char(&mut s, c);
                proof {
                    lemma_char_casts_agree(c);
                    assert(c as u64 == v);
                    lemma_char_scalar(c);
                    assert(c == atoms@[p1 + j as int] as char);
                    assert(s@ =~= Seq::new((j + 1) as nat, |q: int| atoms@[p1 + q] as char));
                }
                j = j + 1;
            }
        }
    }
    proof {
        assert(s@ == Seq::new(n as nat, |q: int| atoms@[pos + 1 + q] as char));
    }
    Option::Some((s, p1 + nu))
}

/// Read a length-prefixed section number from the atom stream.
fn dec_u32s(atoms: &Vec<u64>, pos: usize) -> (r: Option<(SectionNumber, usize)>)
    requires
        pos <= atoms@.len(),
    ensures
        match r {
            Option::Some(sp) => parse_u32s(atoms@, pos as int) == Option::Some(
                (sp.0@, sp.1 as int),
            ) && pos < sp.1 <= atoms@.len(),
            Option::None => parse_u32s(atoms@, pos as int) is None,
        },
{
    if pos >= atoms.len() {
        return Option::None;
    }
    let n = atoms[pos];
    let p1 = pos + 1;
    let rem = atoms.len() - p1;
    if n > rem as u64 {
        return Option::None;
    }
    let nu = n as usize;
    let alen = atoms.len();
    let mut v: Vec<u32> = Vec::new();
    let mut j: usize = 0;
    while j < nu
        invariant
            j <= nu,
            nu == n as int,
            pos < atoms@.len(),
            p1 == pos + 1,
            alen == atoms@.len(),
            p1 + nu <= alen,
            n == atoms@[pos as int],
            forall|k: int| p1 <= k < p1 + j ==> #[trigger] atoms@[k] <= u32::MAX,
            v@ =~= Seq::new(j as nat, |q: int| atoms@[p1 + q] as u32),
        decreases nu - j,
    {
        let x = atoms[p1 + j];
        if x > 0xFFFF_FFFF {
            proof {
                assert(atoms@[p1 + j as int] > u32::MAX);
            }
            return Option::None;
        }
        v.push(x as u32);
        proof {
            assert(v@ =~= Seq::new((j + 1) as nat, |q: int| atoms@[p1 + q] as u32));
        }
        j = j + 1;
    }
    proof {
        assert(v@ == Seq::new(n as nat, |q: int| atoms@[pos + 1 + q] as u32));
    }
    Option::Some((SectionNumber(v), p1 + nu))
}

/// Read an optional section number from the atom stream.
fn dec_number(atoms: &Vec<u64>, pos: usize) -> (r: Option<(Option<SectionNumber>, usize)>)
    requires
        pos <= atoms@.len(),
    ensures
        match r {
            Option::Some(sp) => parse_number(atoms@, pos as int) == Option::Some(
                (number_view(sp.0), sp.1 as int),
            ) && pos < sp.1 <= atoms@.len(),
            Option::None => parse_number(atoms@, pos as int) is None,
        },
{
    if pos >= atoms.len() {
        return Option::None;
    }
    let t = atoms[pos];
    let p1 = pos + 1;
    if t == NUM_ABSENT {
        return Option::Some((Option::None, p1));
    }
    if t != NUM_PRESENT {
        return Option::None;
    }
    match dec_u32s(atoms, p1) {
        Option::None => Option::None,
        Option::Some((sn, p2)) => Option::Some((Option::Some(sn), p2)),
    }
}

/// Read `count` strings from the atom stream.
fn dec_strs(atoms: &Vec<u64>, pos: usize, count: u64) -> (r: Option<(Vec<String>, usize)>)
    requires
        pos <= atoms@.len(),
    ensures
        match r {
            Option::Some(vp) => parse_strs(atoms@, pos as int, count as int) == Option::Some(
                (crate::book::strings_view(vp.0@), vp.1 as int),
            ) && pos <= vp.1 <= atoms@.len(),
            Option::None => parse_strs(atoms@, pos as int, count as int) is None,
        },
    decreases count,
{
    if count == 0 {
        let v: Vec<String> = Vec::new();
        proof {
            assert(crate::book::strings_view(v@) =~= Seq::<Seq<char>>::empty());
        }
        return Option::Some((v, pos));
    }
    match dec_str(atoms, pos) {
        Option::None => Option::None,
        Option::Some((s0, p1)) => {
            match dec_strs(atoms, p1, count - 1) {
                Option::None => Option::None,
                Option::Some((v, p2)) => {
                    let mut v2 = v;
                    v2.insert(0, s0);
                    proof {
                        let sv = crate::book::strings_view(v2@);
                        let tv = seq![s0@] + crate::book::strings_view(v2@.drop_first());
                        assert(v2@.drop_first() =~= v2@.subrange(1, v2@.len() as int));
                        assert(sv =~= tv) by {
                            assert forall|i: int| 0 <= i < sv.len() implies sv[i] == tv[i] by {
                                if i > 0 {
                                    assert(v2@.drop_first()[i - 1] == v2@[i]);
                                }
                            }
                        }
                        assert(crate::book::strings_view(v2@.drop_first()) =~= crate::book::strings_view(
                            v@,
                        )) by {
                            assert(v2@.drop_first() =~= v@);
                        }
                    }
                    Option::Some((v2, p2))
                }
            }
        }
    }
}

/// Read one item from the atom stream.
fn dec_item(atoms: &Vec<u64>, pos: usize) -> (r: Option<(BookItem, usize)>)
    requires
        pos <= atoms@.len(),
    ensures
        match r {
            Option::Some(sp) => parse_item(atoms@, pos as int) == Option::Some(
                (sp.0@, sp.1 as int),
            ) && pos < sp.1 <= atoms@.len(),
            Option::None => parse_item(atoms@, pos as int) is None,
        },
    decreases atoms@.len() - pos, 0int, 0int,
{
    if pos >= atoms.len() {
        return Option::None;
    }
    let t = atoms[pos];
    let p1 = pos + 1;
    if t == TAG_SEPARATOR {
        return Option::Some((BookItem::Separator, p1));
    }
    if t != TAG_CHAPTER {
        return Option::None;
    }
    match dec_chapter(atoms, p1) {
        Option::None => Option::None,
        Option::Some((ch, p2)) => Option::Some((BookItem::Chapter(ch), p2)),
    }
}

/// Read the fields of a chapter from the atom stream.
fn dec_chapter(atoms: &Vec<u64>, pos: usize) -> (r: Option<(Chapter, usize)>)
    requires
        pos <= atoms@.len(),
    ensures
        match r {
            Option::Some(sp) => parse_chapter(atoms@, pos as int) == Option::Some(
                (sp.0@, sp.1 as int),
            ) && pos <= sp.1 <= atoms@.len(),
            Option::None => parse_chapter(atoms@, pos as int) is None,
        },
    decreases atoms@.len() - pos, 0int, 0int,
{
    let r_name = dec_str(atoms, pos);
    if r_name.is_none() {
        return Option::None;
    }
    let (name, p1) = r_name.unwrap();
    let r_content = dec_str(atoms, p1);
    if r_content.is_none() {
        return Option::None;
    }
    let (content, p2) = r_content.unwrap();
    let r_number = dec_number(atoms, p2);
    if r_number.is_none() {
        return Option::None;
    }
    let (number, p3) = r_number.unwrap();
    if p3 >= atoms.len() {
        return Option::None;
    }
    let subn = atoms[p3];
    let p4 = p3 + 1;
    let r_subs = dec_items(atoms, p4, subn);
    if r_subs.is_none() {
        return Option::None;
    }
    let (sub_items, p5) = r_subs.unwrap();
    let r_path = dec_str(atoms, p5);
    if r_path.is_none() {
        return Option::None;
    }
    let (path, p6) = r_path.unwrap();
    if p6 >= atoms.len() {
        return Option::None;
    }
    let pn = atoms[p6];
    let p7 = p6 + 1;
    let r_parents = dec_strs(atoms, p7, pn);
    if r_parents.is_none() {
        return Option::None;
    }
    let (parent_names, p8) = r_parents.unwrap();
    let ch = Chapter { name, content, number, sub_items, path, parent_names };
    proof {
        assert(crate::book::chapter_view(ch).sub_items == items_view(ch.sub_items@));
    }
    Option::Some((ch, p8))
}

/// Read `count` items from the atom stream.
pub(crate) fn dec_items(atoms: &Vec<u64>, pos: usize, count: u64) -> (r: Option<(Vec<BookItem>, usize)>)
    requires
        pos <= atoms@.len(),
    ensures
        match r {
            Option::Some(vp) => parse_items(atoms@, pos as int, count as int) == Option::Some(
                (items_view(vp.0@), vp.1 as int),
            ) && pos <= vp.1 <= atoms@.len(),
            Option::None => parse_items(atoms@, pos as int, count as int) is None,
        },
    decreases atoms@.len() - pos, 1int, count as int,
{
    if count == 0 {
        let v: Vec<BookItem> = Vec::new();
        proof {
            assert(items_view(v@) =~= Seq::<ItemView>::empty());
        }
        return Option::Some((v, pos));
    }
    match dec_item(atoms, pos) {
        Option::None => Option::None,
        Option::Some((it0, p1)) => {
            match dec_items(atoms, p1, count - 1) {
                Option::None => Option::None,
                Option::Some((v, p2)) => {
                    let mut v2 = v;
                    v2.insert(0, it0);
                    proof {
                        crate::book::lemma_items_view_index(v2@);
                        crate::book::lemma_items_view_index(v2@.drop_first());
                        let sv = items_view(v2@);
                        let tv = seq![crate::book::item_view(it0)] + items_view(v2@.drop_first());
                        assert(sv =~= tv) by {
                            assert forall|i: int| 0 <= i < sv.len() implies sv[i] == tv[i] by {
                                if i > 0 {
                                    assert(v2@.drop_first()[i - 1] == v2@[i]);
                                }
                            }
                        }
                        assert(items_view(v2@.drop_first()) =~= items_view(v@)) by {
                            assert(v2@.drop_first() =~= v@);
                        }
                    }
                    Option::Some((v2, p2))
                }
            }
        }
    }
}

/// Reconstruct a book from its atom stream.  Succeeds exactly when the whole
/// stream is one well-formed book document.
pub fn decode_book_atoms(atoms: &Vec<u64>) -> (r: Option<Book>)
    ensures
        match r {
            Option::Some(b) => parse_book(atoms@) == Option::Some(b@),
            Option::None => parse_book(atoms@) is None,
        },
{
    if atoms.len() == 0 {
        return Option::None;
    }
    let n = atoms[0];
    match dec_items(atoms, 1, n) {
        Option::None => Option::None,
        Option::Some((items, p2)) => {
            if p2 == atoms.len() {
                Option::Some(Book { sections: items })
            } else {
                Option::None
            }
        }
    }
}

/// Serialize a book into its atom stream.
pub fn encode_book_atoms(b: &Book) -> (out: Vec<u64>)
    ensures
        out@ == atoms_of_book(b@),
        items_bounded(b@),
{
    let mut out: Vec<u64> = Vec::new();
    out.push(b.sections.len() as u64);
    proof {
        crate::book::lemma_items_view_index(b.sections@);
    }
    enc_items(&b.sections, &mut out);
    proof {
        assert(out@ =~= seq![b@.len() as u64] + atoms_of_items(b@));
    }
    out
}

/// The little-endian byte serialization of an atom stream.
pub open spec fn le_bytes_of_atoms(atoms: Seq<u64>) -> Seq<u8>
    decreases atoms,
{
    if atoms.len() == 0 {
        Seq::empty()
    } else {
        vstd::bytes::spec_u64_to_le_bytes(atoms.first()) + le_bytes_of_atoms(atoms.drop_first())
    }
}

/// Deserializing a little-endian byte stream back into atoms: the length
/// must be a whole number of eight-byte groups.
pub open spec fn parse_le_atoms(bytes: Seq<u8>) -> Option<Seq<u64>> {
    if bytes.len() % 8 == 0 {
        Option::Some(
            Seq::new(
                bytes.len() / 8,
                |i: int| vstd::bytes::spec_u64_from_le_bytes(bytes.subrange(8 * i, 8 * i + 8)),
            ),
        )
    } else {
        Option::None
    }
}

/// Eight bytes per atom.
proof fn lemma_le_bytes_of_atoms_len(atoms: Seq<u64>)
    ensures
        le_bytes_of_atoms(atoms).len() == 8 * atoms.len(),
    decreases atoms,
{
    vstd::bytes::lemma_auto_spec_u64_to_from_le_bytes();
    if atoms.len() > 0 {
        lemma_le_bytes_of_atoms_len(atoms.drop_first());
    }
}

/// The serialization of each atom sits at its own eight-byte group.
proof fn lemma_le_bytes_of_atoms_index(atoms: Seq<u64>, i: int)
    requires
        0 <= i < atoms.len(),
    ensures
        le_bytes_of_atoms(atoms).subrange(8 * i, 8 * i + 8)
            == vstd::bytes::spec_u64_to_le_bytes(atoms[i]),
    decreases atoms,
{
    vstd::bytes::lemma_auto_spec_u64_to_from_le_bytes();
    let whole = le_bytes_of_atoms(atoms);
    let head = vstd::bytes::spec_u64_to_le_bytes(atoms.first());
    let tail = le_bytes_of_atoms(atoms.drop_first());
    lemma_le_bytes_of_atoms_len(atoms.drop_first());
    if i == 0 {
        assert(whole.subrange(0, 8) =~= head);
    } else {
        lemma_le_bytes_of_atoms_index(atoms.drop_first(), i - 1);
        let sub = tail.subrange(8 * (i - 1), 8 * (i - 1) + 8);
        assert(whole.subrange(8 * i, 8 * i + 8) =~= sub) by {
            assert forall|k: int| 0 <= k < 8 implies whole.subrange(8 * i, 8 * i + 8)[k] == sub[k] by {
                assert(whole[8 * i + k] == tail[8 * (i - 1) + k]);
            }
        }
        assert(atoms.drop_first()[i - 1] == atoms[i]);
    }
}

/// Appending one atom's bytes to a serialized stream.
proof fn lemma_le_bytes_of_atoms_push(atoms: Seq<u64>, x: u64)
    ensures
        le_bytes_of_atoms(atoms.push(x)) == le_bytes_of_atoms(atoms)
            + vstd::bytes::spec_u64_to_le_bytes(x),
    decreases atoms,
{
    if atoms.len() == 0 {
        assert(atoms.push(x).drop_first() =~= Seq::<u64>::empty());
        assert(atoms.push(x).first() == x);
        assert(le_bytes_of_atoms(Seq::<u64>::empty()) =~= Seq::<u8>::empty());
        assert(le_bytes_of_atoms(atoms.push(x)) =~= le_bytes_of_atoms(atoms)
            + vstd::bytes::spec_u64_to_le_bytes(x));
    } else {
        assert(atoms.push(x).drop_first() =~= atoms.drop_first().push(x));
        assert(atoms.push(x).first() == atoms.first());
        lemma_le_bytes_of_atoms_push(atoms.drop_first(), x);
        assert(le_bytes_of_atoms(atoms.push(x)) =~= le_bytes_of_atoms(atoms)
            + vstd::bytes::spec_u64_to_le_bytes(x));
    }
}

/// Round trip at the byte level: deserializing a serialized atom stream
/// yields the stream back.
pub proof fn lemma_parse_le_atoms_of_encoding(atoms: Seq<u64>)
    ensures
        parse_le_atoms(le_bytes_of_atoms(atoms)) == Option::Some(atoms),
{
    vstd::bytes::lemma_auto_spec_u64_to_from_le_bytes();
    let bytes = le_bytes_of_atoms(atoms);
    lemma_le_bytes_of_atoms_len(atoms);
    assert(Seq::new(
        bytes.len() / 8,
        |i: int| vstd::bytes::spec_u64_from_le_bytes(bytes.subrange(8 * i, 8 * i + 8)),
    ) =~= atoms) by {
        assert forall|i: int| 0 <= i < atoms.len() implies vstd::bytes::spec_u64_from_le_bytes(
            bytes.subrange(8 * i, 8 * i + 8),
        ) == atoms[i] by {
            lemma_le_bytes_of_atoms_index(atoms, i);
        }
    }
}

/// The byte value of an ASCII hexadecimal digit, lower case.
pub open spec fn hex_digit(d: u8) -> u8 {
    if d < 10 {
        (48 + d) as u8
    } else {
        (87 + d) as u8
    }
}

/// The two ASCII digits of one byte, high part first.
pub open spec fn hex_pair(b: u8) -> Seq<u8> {
    seq![hex_digit(b / 16), hex_digit(b % 16)]
}

/// The ASCII hexadecimal text of a byte stream.
pub open spec fn hex_of_bytes(bs: Seq<u8>) -> Seq<u8>
    decreases bs,
{
    if bs.len() == 0 {
        Seq::empty()
    } else {
        hex_pair(bs.first()) + hex_of_bytes(bs.drop_first())
    }
}

/// Whether a byte is an ASCII hexadecimal digit, lower case.
pub open spec fn is_hex_digit(x: u8) -> bool {
    (48 <= x && x <= 57) || (97 <= x && x <= 102)
}

/// The value of an ASCII hexadecimal digit.
pub open spec fn hex_val(x: u8) -> u8 {
    if x <= 57 {
        (x - 48) as u8
    } else {
        (x - 87) as u8
    }
}

/// Deserializing hexadecimal text back into bytes: the length must be even
/// and every byte a digit.
pub open spec fn parse_hex_bytes(text: Seq<u8>) -> Option<Seq<u8>> {
    if text.len() % 2 == 0 && (forall|i: int|
        0 <= i < text.len() ==> is_hex_digit(#[trigger] text[i])) {
        Option::Some(
            Seq::new(
                text.len() / 2,
                |i: int| (hex_val(text[2 * i]) as int * 16 + hex_val(text[2 * i + 1]) as int) as u8,
            ),
        )
    } else {
        Option::None
    }
}

/// A digit's text is a digit, and reads back as its value.
proof fn lemma_hex_digit(d: u8)
    requires
        d < 16,
    ensures
        is_hex_digit(hex_digit(d)),
        hex_val(hex_digit(d)) == d,
{
}

/// A byte's two digits read back as the byte.
proof fn lemma_hex_pair(b: u8)
    ensures
        hex_pair(b).len() == 2,
        is_hex_digit(hex_pair(b)[0]),
        is_hex_digit(hex_pair(b)[1]),
        hex_val(hex_pair(b)[0]) as int * 16 + hex_val(hex_pair(b)[1]) as int == b,
{
    lemma_hex_digit(b / 16);
    lemma_hex_digit(b % 16);
}

/// Two text bytes per payload byte.
proof fn lemma_hex_of_bytes_len(bs: Seq<u8>)
    ensures
        hex_of_bytes(bs).len() == 2 * bs.len(),
    decreases bs,
{
    if bs.len() > 0 {
        lemma_hex_of_bytes_len(bs.drop_first());
    }
}

/// The digits of each byte sit at their own two-byte group.
proof fn lemma_hex_of_bytes_index(bs: Seq<u8>, i: int)
    requires
        0 <= i < bs.len(),
    ensures
        hex_of_bytes(bs).subrange(2 * i, 2 * i + 2) == hex_pair(bs[i]),
    decreases bs,
{
    let whole = hex_of_bytes(bs);
    let head = hex_pair(bs.first());
    let tail = hex_of_bytes(bs.drop_first());
    lemma_hex_of_bytes_len(bs.drop_first());
    if i == 0 {
        assert(whole.subrange(0, 2) =~= head);
    } else {
        lemma_hex_of_bytes_index(bs.drop_first(), i - 1);
        let sub = tail.subrange(2 * (i - 1), 2 * (i - 1) + 2);
        assert(whole.subrange(2 * i, 2 * i + 2) =~= sub) by {
            assert forall|k: int| 0 <= k < 2 implies whole.subrange(2 * i, 2 * i + 2)[k] == sub[k] by {
                assert(whole[2 * i + k] == tail[2 * (i - 1) + k]);
            }
        }
        assert(bs.drop_first()[i - 1] == bs[i]);
    }
}

/// Appending one byte's digits to a hexadecimal text.
proof fn lemma_hex_of_bytes_push(bs: Seq<u8>, x: u8)
    ensures
        hex_of_bytes(bs.push(x)) == hex_of_bytes(bs) + hex_pair(x),
    decreases bs,
{
    if bs.len() == 0 {
        assert(bs.push(x).drop_first() =~= Seq::<u8>::empty());
        assert(bs.push(x).first() == x);
        assert(hex_of_bytes(Seq::<u8>::empty()) =~= Seq::<u8>::empty());
        assert(hex_of_bytes(bs.push(x)) =~= hex_of_bytes(bs) + hex_pair(x));
    } else {
        assert(bs.push(x).drop_first() =~= bs.drop_first().push(x));
        assert(bs.push(x).first() == bs.first());
        lemma_hex_of_bytes_push(bs.drop_first(), x);
        assert(hex_of_bytes(bs.push(x)) =~= hex_of_bytes(bs) + hex_pair(x));
    }
}

/// Round trip at the text level: reading the hexadecimal text of a byte
/// stream yields the stream back.
pub proof fn lemma_parse_hex_of_encoding(bs: Seq<u8>)
    ensures
        parse_hex_bytes(hex_of_bytes(bs)) == Option::Some(bs),
{
    let text = hex_of_bytes(bs);
    lemma_hex_of_bytes_len(bs);
    assert forall|i: int| 0 <= i < text.len() implies is_hex_digit(#[trigger] text[i]) by {
        let j = i / 2;
        lemma_hex_of_bytes_index(bs, j);
        lemma_hex_pair(bs[j]);
        assert(text.subrange(2 * j, 2 * j + 2)[i - 2 * j] == text[i]);
    }
    assert(Seq::new(
        text.len() / 2,
        |i: int| (hex_val(text[2 * i]) as int * 16 + hex_val(text[2 * i + 1]) as int) as u8,
    ) =~= bs) by {
        assert forall|i: int| 0 <= i < bs.len() implies (hex_val(text[2 * i]) as int * 16 + hex_val(
            text[2 * i + 1],
        ) as int) as u8 == bs[i] by {
            lemma_hex_of_bytes_index(bs, i);
            lemma_hex_pair(bs[i]);
            assert(text.subrange(2 * i, 2 * i + 2)[0] == text[2 * i]);
            assert(text.subrange(2 * i, 2 * i + 2)[1] == text[2 * i + 1]);
        }
    }
}

/// Serialize an atom stream as little-endian bytes.
pub(crate) fn atoms_to_le_bytes(atoms: &Vec<u64>) -> (out: Vec<u8>)
    ensures
        out@ == le_bytes_of_atoms(atoms@),
{
    let mut out: Vec<u8> = Vec::new();
    let mut j: usize = 0;
    while j < atoms.len()
        invariant
            j <= atoms@.len(),
            out@ =~= le_bytes_of_atoms(atoms@.take(j as int)),
        decreases atoms@.len() - j,
    {
        let mut chunk = vstd::bytes::u64_to_le_bytes(atoms[j]);
        proof {
            assert(atoms@.take(j + 1) =~= atoms@.take(j as int).push(atoms@[j as int]));
            lemma_le_bytes_of_atoms_push(atoms@.take(j as int), atoms@[j as int]);
        }
        out.append(&mut chunk);
        j = j + 1;
    }
    proof {
        assert(atoms@.take(atoms@.len() as int) =~= atoms@);
    }
    out
}

/// Deserialize little-endian bytes into an atom stream.
pub(crate) fn le_bytes_to_atoms(bytes: &Vec<u8>) -> (r: Option<Vec<u64>>)
    ensures
        match r {
            Option::Some(v) => parse_le_atoms(bytes@) == Option::Some(v@),
            Option::None => parse_le_atoms(bytes@) is None,
        },
{
    if bytes.len() % 8 != 0 {
        return Option::None;
    }
    let cnt = bytes.len() / 8;
    proof {
        vstd::arithmetic::div_mod::lemma_fundamental_div_mod(bytes@.len() as int, 8);
    }
    let mut v: Vec<u64> = Vec::new();
    let mut i: usize = 0;
    let mut off: usize = 0;
    while i < cnt
        invariant
            i <= cnt,
            cnt == bytes@.len() / 8,
            bytes@.len() % 8 == 0,
            8 * (cnt as int) == bytes@.len(),
            bytes@.len() <= usize::MAX,
            off == 8 * i,
            v@ =~= Seq::new(
                i as nat,
                |k: int| vstd::bytes::spec_u64_from_le_bytes(bytes@.subrange(8 * k, 8 * k + 8)),
            ),
        decreases cnt - i,
    {
        let sl = vstd::slice::slice_subrange(bytes.as_slice(), off, off + 8);
        let x = vstd::bytes::u64_from_le_bytes(sl);
        v.push(x);
        proof {
            assert(v@ =~= Seq::new(
                (i + 1) as nat,
                |k: int| vstd::bytes::spec_u64_from_le_bytes(bytes@.subrange(8 * k, 8 * k + 8)),
            ));
        }
        i = i + 1;
        off = off + 8;
    }
    Option::Some(v)
}

/// Serialize a byte stream as ASCII hexadecimal text.
pub(crate) fn bytes_to_hex(bs: &Vec<u8>) -> (out: Vec<u8>)
    ensures
        out@ == hex_of_bytes(bs@),
{
    let mut out: Vec<u8> = Vec::new();
    let mut j: usize = 0;
    while j < bs.len()
        invariant
            j <= bs@.len(),
            out@ =~= hex_of_bytes(bs@.take(j as int)),
        decreases bs@.len() - j,
    {
        let b = bs[j];
        let hi = b / 16;
        let lo = b % 16;
        let dh = if hi < 10 {
            48 + hi
        } else {
            87 + hi
        };
        let dl = if lo < 10 {
            48 + lo
        } else {
            87 + lo
        };
        proof {
            assert(bs@.take(j + 1) =~= bs@.take(j as int).push(bs@[j as int]));
            lemma_hex_of_bytes_push(bs@.take(j as int), bs@[j as int]);
            assert(dh == hex_digit(bs@[j as int] / 16));
            assert(dl == hex_digit(bs@[j as int] % 16));
        }
        out.push(dh);
        out.push(dl);
        proof {
            assert(out@ =~= hex_of_bytes(bs@.take(j + 1)));
        }
        j = j + 1;
    }
    proof {
        assert(bs@.take(bs@.len() as int) =~= bs@);
    }
    out
}

/// Deserialize ASCII hexadecimal text into a byte stream.
pub(crate) fn hex_to_bytes(text: &Vec<u8>) -> (r: Option<Vec<u8>>)
    ensures
        match r {
            Option::Some(v) => parse_hex_bytes(text@) == Option::Some(v@),
            Option::None => parse_hex_bytes(text@) is None,
        },
{
    if text.len() % 2 != 0 {
        return Option::None;
    }
    let cnt = text.len() / 2;
    proof {
        vstd::arithmetic::div_mod::lemma_fundamental_div_mod(text@.len() as int, 2);
    }
    let mut v: Vec<u8> = Vec::new();
    let mut i: usize = 0;
    let mut off: usize = 0;
    while i < cnt
        invariant
            i <= cnt,
            cnt == text@.len() / 2,
            text@.len() % 2 == 0,
            2 * (cnt as int) == text@.len(),
            text@.len() <= usize::MAX,
            off == 2 * i,
            forall|k: int| 0 <= k < 2 * i ==> is_hex_digit(#[trigger] text@[k]),
            v@ =~= Seq::new(
                i as nat,
                |k: int| (hex_val(text@[2 * k]) as int * 16 + hex_val(text@[2 * k + 1]) as int) as u8,
            ),
        decreases cnt - i,
    {
        let a = text[off];
        let b = text[off + 1];
        let va = if 48 <= a && a <= 57 {
            a - 48
        } else if 97 <= a && a <= 102 {
            a - 87
        } else {
            proof {
                assert(!is_hex_digit(text@[2 * i as int]));
            }
            return Option::None;
        };
        let vb = if 48 <= b && b <= 57 {
            b - 48
        } else if 97 <= b && b <= 102 {
            b - 87
        } else {
            proof {
                assert(!is_hex_digit(text@[2 * i as int + 1]));
            }
            return Option::None;
        };
        v.push(va * 16 + vb);
        proof {
            assert(va == hex_val(text@[2 * i as int]));
            assert(vb == hex_val(text@[2 * i as int + 1]));
            assert(v@ =~= Seq::new(
                (i + 1) as nat,
                |k: int| (hex_val(text@[2 * k]) as int * 16 + hex_val(text@[2 * k + 1]) as int) as u8,
            ));
        }
        i = i + 1;
        off = off + 2;
    }
    proof {
        assert forall|k: int| 0 <= k < text@.len() implies is_hex_digit(#[trigger] text@[k]) by {
            assert(k < 2 * (cnt as int));
        }
    }
    Option::Some(v)
}

/// The compact binary wire format of a book.
pub open spec fn binary_wire(b: Seq<ItemView>) -> Seq<u8> {
    le_bytes_of_atoms(atoms_of_book(b))
}

/// The text wire format of a book: the binary wire spelled as hexadecimal
/// digits.
pub open spec fn text_wire(b: Seq<ItemView>) -> Seq<u8> {
    hex_of_bytes(binary_wire(b))
}

/// What decoding a binary wire document yields.
pub open spec fn spec_decode_binary(bytes: Seq<u8>) -> Option<Seq<ItemView>> {
    match parse_le_atoms(bytes) {
        Option::None => Option::None,
        Option::Some(atoms) => parse_book(atoms),
    }
}

/// What decoding a text wire document yields.
pub open spec fn spec_decode_text(text: Seq<u8>) -> Option<Seq<ItemView>> {
    match parse_hex_bytes(text) {
        Option::None => Option::None,
        Option::Some(bytes) => spec_decode_binary(bytes),
    }
}

/// Serialize a book into the compact binary wire format.
pub fn encode_book_binary(b: &Book) -> (out: Vec<u8>)
    ensures
        out@ == binary_wire(b@),
        items_bounded(b@),
{
    let atoms = encode_book_atoms(b);
    atoms_to_le_bytes(&atoms)
}

/// Decode one binary wire document into a book.  Succeeds exactly when the
/// document is well formed in full.
pub fn decode_book_binary(bytes: &Vec<u8>) -> (r: Option<Book>)
    ensures
        match r {
            Option::Some(b) => spec_decode_binary(bytes@) == Option::Some(b@),
            Option::None => spec_decode_binary(bytes@) is None,
        },
{
    match le_bytes_to_atoms(bytes) {
        Option::None => Option::None,
        Option::Some(atoms) => decode_book_atoms(&atoms),
    }
}

/// Serialize a book into the text wire format.
pub fn encode_book_text(b: &Book) -> (out: Vec<u8>)
    ensures
        out@ == text_wire(b@),
        items_bounded(b@),
{
    let bytes = encode_book_binary(b);
    bytes_to_hex(&bytes)
}

/// Decode one text wire document into a book.  Succeeds exactly when the
/// document is well formed in full.
pub fn decode_book_text(text: &Vec<u8>) -> (r: Option<Book>)
    ensures
        match r {
            Option::Some(b) => spec_decode_text(text@) == Option::Some(b@),
            Option::None => spec_decode_text(text@) is None,
        },
{
    match hex_to_bytes(text) {
        Option::None => Option::None,
        Option::Some(bytes) => decode_book_binary(&bytes),
    }
}

/// Round trip over the binary wire: decoding the encoding of any
/// representable tree yields that tree, separators, absent numbers and empty
/// sub-item lists included.
pub proof fn lemma_binary_round_trip(b: Seq<ItemView>)
    requires
        items_bounded(b),
    ensures
        spec_decode_binary(binary_wire(b)) == Option::Some(b),
{
    lemma_parse_le_atoms_of_encoding(atoms_of_book(b));
    lemma_parse_book_completes(b);
}

/// Round trip over the text wire: decoding the encoding of any representable
/// tree yields that tree.
pub proof fn lemma_text_round_trip(b: Seq<ItemView>)
    requires
        items_bounded(b),
    ensures
        spec_decode_text(text_wire(b)) == Option::Some(b),
{
    lemma_parse_hex_of_encoding(binary_wire(b));
    lemma_binary_round_trip(b);
}

/// No two representable trees share a wire document: the encoding is
/// injective.
pub proof fn lemma_wire_injective(a: Seq<ItemView>, b: Seq<ItemView>)
    requires
        items_bounded(a),
        items_bounded(b),
        binary_wire(a) == binary_wire(b),
    ensures
        a == b,
{
    lemma_binary_round_trip(a);
    lemma_binary_round_trip(b);
}

} // verus!
