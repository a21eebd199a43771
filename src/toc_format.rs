//! The flat table of contents: its entries, the page offset, and the text
//! notation.

use vstd::prelude::*;

verus! {

/// What one entry of a table of contents stands for.
pub ghost struct EntryView {
    pub depth: nat,
    pub page: nat,
    pub title: Seq<char>,
}

/// One line of a table of contents: nesting depth, 1-based page, title.
#[derive(Clone, Debug, PartialEq, Eq)]
pub struct TocEntry {
    pub depth: u32,
    pub page: u32,
    pub title: String,
}

impl View for TocEntry {
    type V = EntryView;

    open spec fn view(&self) -> EntryView {
        EntryView { depth: self.depth as nat, page: self.page as nat, title: self.title@ }
    }
}

/// The views of a sequence of entries.
pub open spec fn entries_view(s: Seq<TocEntry>) -> Seq<EntryView> {
    s.map_values(|e: TocEntry| e@)
}

/// A table of contents: entries in pre-order of the tree they describe.
#[derive(Clone, Debug, Default, PartialEq, Eq)]
pub struct Toc {
    pub entries: Vec<TocEntry>,
}

impl View for Toc {
    type V = Seq<EntryView>;

    open spec fn view(&self) -> Seq<EntryView> {
        entries_view(self.entries@)
    }
}

/// A page moved by `offset`, held within `0 ..= u32::MAX`.
pub open spec fn shift_page(page: nat, offset: int) -> nat {
    let moved = page + offset;
    if moved < 0 {
        0
    } else if moved > u32::MAX {
        u32::MAX as nat
    } else {
        moved as nat
    }
}

/// Every entry's page moved by `offset`; depths and titles unchanged.
pub open spec fn shift_pages(s: Seq<EntryView>, offset: int) -> Seq<EntryView> {
    s.map_values(|e: EntryView| EntryView { page: shift_page(e.page, offset), ..e })
}

/// Adds a signed offset to a page, saturating at both ends.
fn offset_one_page(page: u32, offset: i32) -> (r: u32)
    ensures
        r as nat == shift_page(page as nat, offset as int),
{
    let moved: i64 = page as i64 + offset as i64;
    if moved < 0 {
        0
    } else if moved > u32::MAX as i64 {
        u32::MAX
    } else {
        moved as u32
    }
}

impl Toc {
    /// Moves every entry's page by `offset`, saturating at `0` and `u32::MAX`.
    pub fn page_offset(&mut self, offset: i32)
        ensures
            final(self)@ == shift_pages(old(self)@, offset as int),
    {
        let n = self.entries.len();
        let mut i: usize = 0;
        while i < n
            invariant
                n == self.entries.len(),
                n == old(self).entries.len(),
                0 <= i <= n,
                forall|k: int| 0 <= k < i ==> #[trigger] self.entries@[k]@ == (EntryView {
                    page: shift_page(old(self).entries@[k]@.page, offset as int),
                    ..old(self).entries@[k]@
                }),
                forall|k: int| i <= k < n ==> #[trigger] self.entries@[k] == old(self).entries@[k],
            decreases n - i,
        {
            let p = offset_one_page(self.entries[i].page, offset);
            self.entries[i].page = p;
            i += 1;
        }
        assert(self@ =~= shift_pages(old(self)@, offset as int));
    }
}

/// Moving every page by `o1` and then by `o2` gives what moving them by
/// `o1 + o2` gives, whenever no saturation is undone: both moves go the same
/// way, or the first move keeps every page within `0 ..= u32::MAX`.
pub proof fn lemma_offset_composition(s: Seq<EntryView>, o1: int, o2: int)
    requires
        forall|k: int| 0 <= k < s.len() ==> #[trigger] s[k].page <= u32::MAX,
        (o1 >= 0 && o2 >= 0) || (o1 <= 0 && o2 <= 0) || forall|k: int|
            0 <= k < s.len() ==> 0 <= #[trigger] s[k].page + o1 <= u32::MAX,
    ensures
        shift_pages(shift_pages(s, o1), o2) == shift_pages(s, o1 + o2),
{
    let lhs = shift_pages(shift_pages(s, o1), o2);
    let rhs = shift_pages(s, o1 + o2);
    assert forall|k: int| 0 <= k < s.len() implies #[trigger] lhs[k] == rhs[k] by {
        assert(s[k].page <= u32::MAX);
    }
    assert(lhs =~= rhs);
}

} // verus!
