//! The rows screens are made of.

use crate::item_data::{ItemData, Meaning};
use crate::style::Style;
use vstd::prelude::*;

verus! {

/// What tells a row apart from the others on a screen.
pub type ItemId = u64;

/// A pre-rendered line as owned styled spans (e.g. one row of a renderer's output).
pub type RenderedRow = Vec<(String, Style)>;

#[derive(Debug)]
pub struct Item {
    pub id: ItemId,
    pub default_collapsed: bool,
    pub depth: usize,
    pub unselectable: bool,
    pub data: ItemData,
    /// Pre-rendered styled spans (e.g. a diff row from an external renderer),
    /// drawn verbatim in place of `data`.
    pub rendered: Option<RenderedRow>,
}

/// A row of a screen.
#[verifier::ext_equal]
pub struct ItemRow {
    pub id: ItemId,
    pub default_collapsed: bool,
    pub depth: usize,
    pub unselectable: bool,
    pub data: Meaning,
    pub rendered: Option<Seq<(Seq<char>, Style)>>,
}

/// What a pre-rendered line is.
pub open spec fn row_view(row: Seq<(String, Style)>) -> Seq<(Seq<char>, Style)> {
    row.map_values(|span: (String, Style)| (span.0@, span.1))
}

/// What some pre-rendered lines are.
pub open spec fn rows_view(rows: Seq<RenderedRow>) -> Seq<Seq<(Seq<char>, Style)>> {
    rows.map_values(|row: RenderedRow| row_view(row@))
}

pub open spec fn rendered_view(rendered: Option<RenderedRow>) -> Option<
    Seq<(Seq<char>, Style)>,
> {
    match rendered {
        Some(row) => Some(row_view(row@)),
        None => None,
    }
}

impl View for Item {
    type V = ItemRow;

    open spec fn view(&self) -> ItemRow {
        ItemRow {
            id: self.id,
            default_collapsed: self.default_collapsed,
            depth: self.depth,
            unselectable: self.unselectable,
            data: self.data@,
            rendered: rendered_view(self.rendered),
        }
    }
}

/// What some rows are.
pub open spec fn item_views(items: Seq<Item>) -> Seq<ItemRow> {
    items.map_values(|item: Item| item@)
}

/// A row with nothing to it.
pub open spec fn plain_item() -> ItemRow {
    ItemRow {
        id: 0,
        default_collapsed: false,
        depth: 0,
        unselectable: false,
        data: Meaning::Raw(seq![]),
        rendered: None,
    }
}

/// A row that separates others.
pub open spec fn blank_item() -> ItemRow {
    ItemRow { unselectable: true, ..plain_item() }
}

impl Item {
    /// A row with nothing to it.
    pub fn plain() -> (item: Item)
        ensures
            item@ == plain_item(),
    {
        Item {
            id: 0,
            default_collapsed: false,
            depth: 0,
            unselectable: false,
            data: ItemData::empty(),
            rendered: None,
        }
    }
}

/// A row that separates others.
pub fn blank_line() -> (item: Item)
    ensures
        item@ == blank_item(),
{
    Item { unselectable: true, ..Item::plain() }
}

/// A copy of a pre-rendered line.
pub fn clone_row(row: &RenderedRow) -> (copy: RenderedRow)
    ensures
        row_view(copy@) == row_view(row@),
{
    let mut copy: RenderedRow = Vec::new();
    let mut i: usize = 0;
    while i < row.len()
        invariant
            i <= row@.len(),
            copy@.len() == i,
            forall|k: int|
                0 <= k < i ==> (#[trigger] copy@[k]).0@ == row@[k].0@ && copy@[k].1 == row@[k].1,
        decreases row@.len() - i,
    {
        copy.push((row[i].0.clone(), row[i].1));
        i += 1;
    }
    proof {
        assert(row_view(copy@) =~= row_view(row@));
    }
    copy
}

/// A view is legitimately empty (nothing staged, the last hunk staged away, a
/// branch with no commits) and a screen still has to answer what is selected.
/// So it gets a row, which nothing can act on.
pub open spec fn filled(items: Seq<ItemRow>) -> Seq<ItemRow> {
    if items.len() == 0 {
        seq![blank_item()]
    } else {
        items
    }
}

/// Items with something among them.
pub fn fill_empty(items: Vec<Item>) -> (out: Vec<Item>)
    ensures
        item_views(out@) == filled(item_views(items@)),
        out@.len() > 0,
        items@.len() > 0 ==> out == items,
{
    let mut items = items;
    if items.len() == 0 {
        items.push(blank_line());
        proof {
            assert(item_views(items@) =~= seq![blank_item()]);
        }
    }
    items
}

} // verus!
