//! Bookmark trees, and their conversion to and from a flat table of contents.

use vstd::prelude::*;

use crate::toc_format::{entries_view, EntryView, Toc, TocEntry};

verus! {

/// One bookmark: a title, an optional 0-based target page, a link that is
/// carried through untouched, and ordered children.
#[derive(Debug)]
pub struct OutlineNode {
    pub title: String,
    pub uri: Option<String>,
    pub page: Option<u32>,
    pub down: Vec<OutlineNode>,
}

/// Why a table of contents could not become a tree, or a tree a table of
/// contents.
#[derive(Clone, Copy, Debug, PartialEq, Eq)]
pub enum StructureError {
    /// The first entry is not at depth 0.
    RootDepth,
    /// The entry at `index` is more than one level deeper than the one before.
    DepthJump { index: usize },
    /// The entry at `index` has page 0; pages count from 1.
    InvalidPage { index: usize },
    /// A tree is nested deeper than an entry's depth can record.
    TooDeep,
}

/// The 1-based page that a node's 0-based page is written as; a node with
/// no page points at the first one.
pub open spec fn flat_page(page: Option<u32>) -> nat {
    match page {
        Some(p) => if p < u32::MAX { p as nat + 1 } else { u32::MAX as nat },
        None => 1,
    }
}

/// Pre-order listing of a forest whose roots stand at `depth`.
pub open spec fn flatten_forest(f: Seq<OutlineNode>, depth: nat) -> Seq<EntryView>
    decreases f,
{
    if f.len() == 0 {
        Seq::empty()
    } else {
        let n = f.last();
        flatten_forest(f.drop_last(), depth) + seq![
            EntryView { depth, page: flat_page(n.page), title: n.title@ },
        ] + flatten_forest(n.down@, depth + 1)
    }
}

/// Every node of a forest whose roots stand at `depth` has a depth that fits
/// in `u32`.
pub open spec fn depth_fits(f: Seq<OutlineNode>, depth: nat) -> bool
    decreases f,
{
    if f.len() == 0 {
        true
    } else {
        let n = f.last();
        depth_fits(f.drop_last(), depth) && depth <= u32::MAX && depth_fits(n.down@, depth + 1)
    }
}

fn flat_page_of(page: Option<u32>) -> (r: u32)
    ensures
        r as nat == flat_page(page),
{
    match page {
        Some(p) => p.saturating_add(1),
        None => 1,
    }
}

/// A bookmark without children for a 1-based page; none for page 0.
pub fn new_outline(title: String, page: u32) -> (r: Option<OutlineNode>)
    ensures
        r is None <==> page == 0,
        r matches Some(n) ==> n.title@ == title@ && n.uri is None && n.page == Some((page - 1) as u32)
            && n.down@.len() == 0,
{
    if page == 0 {
        return None;
    }
    Some(OutlineNode { title, uri: None, page: Some(page - 1), down: Vec::new() })
}

/// Appends the pre-order listing of `nodes`, roots at `depth`, to `out`;
/// fails, with `out` partly filled, when a depth does not fit.
fn flatten_into(nodes: &[OutlineNode], depth: u32, out: &mut Vec<TocEntry>) -> (r: Result<
    (),
    StructureError,
>)
    ensures
        r is Ok <==> depth_fits(nodes@, depth as nat),
        r is Ok ==> entries_view(final(out)@) == entries_view(old(out)@) + flatten_forest(
            nodes@,
            depth as nat,
        ),
        r is Err ==> r == Err::<(), StructureError>(StructureError::TooDeep),
    decreases nodes@,
{
    let n = nodes.len();
    let mut i: usize = 0;
    while i < n
        invariant
            n == nodes@.len(),
            0 <= i <= n,
            depth_fits(nodes@.subrange(0, i as int), depth as nat),
            entries_view(out@) == entries_view(old(out)@) + flatten_forest(
                nodes@.subrange(0, i as int),
                depth as nat,
            ),
        decreases n - i,
    {
        let node = &nodes[i];
        let ghost before = out@;
        out.push(TocEntry { depth, page: flat_page_of(node.page), title: node.title.clone() });
        proof {
            assert(entries_view(out@) =~= entries_view(before).push(out@.last()@));
        }
        let ghost mid = out@;
        if node.down.len() > 0 && depth == u32::MAX {
            proof {
                let s = nodes@.subrange(0, i as int + 1);
                assert(s.drop_last() =~= nodes@.subrange(0, i as int));
                assert(s.last() == nodes@[i as int]);
                assert(!depth_fits(node.down@, depth as nat + 1));
                assert(!depth_fits(s, depth as nat));
                if depth_fits(nodes@, depth as nat) {
                    lemma_depth_fits_prefix(nodes@, depth as nat, i as int + 1);
                }
            }
            return Err(StructureError::TooDeep);
        }
        assert(decreases_to!(nodes@ => nodes@[i as int]));
        let sub = flatten_into(node.down.as_slice(), if node.down.len() > 0 { depth + 1 } else { depth }, out);
        proof {
            let s = nodes@.subrange(0, i as int + 1);
            assert(s.drop_last() =~= nodes@.subrange(0, i as int));
            assert(s.last() == nodes@[i as int]);
            if node.down@.len() == 0 {
                assert(depth_fits(node.down@, depth as nat + 1));
                assert(flatten_forest(node.down@, depth as nat + 1) =~= Seq::empty());
                assert(flatten_forest(node.down@, depth as nat) =~= Seq::empty());
            }
        }
        match sub {
            Ok(()) => {},
            Err(e) => {
                proof {
                    if depth_fits(nodes@, depth as nat) {
                        lemma_depth_fits_prefix(nodes@, depth as nat, i as int + 1);
                    }
                }
                return Err(e);
            },
        }
        proof {
            let s = nodes@.subrange(0, i as int + 1);
            assert(entries_view(out@) =~= entries_view(old(out)@) + flatten_forest(s, depth as nat));
        }
        i += 1;
    }
    proof {
        assert(nodes@.subrange(0, n as int) =~= nodes@);
    }
    Ok(())
}

/// A forest whose depths fit has prefixes whose depths fit.
proof fn lemma_depth_fits_prefix(f: Seq<OutlineNode>, depth: nat, k: int)
    requires
        0 <= k <= f.len(),
        depth_fits(f, depth),
    ensures
        depth_fits(f.subrange(0, k), depth),
    decreases f.len() - k,
{
    if k < f.len() {
        if k + 1 < f.len() {
            lemma_depth_fits_prefix(f, depth, k + 1);
        } else {
            assert(f.subrange(0, k + 1) =~= f);
        }
        let g = f.subrange(0, k + 1);
        assert(g.drop_last() =~= f.subrange(0, k));
        assert(depth_fits(g, depth));
    } else {
        assert(f.subrange(0, k) =~= f);
    }
}

/// Lists a forest in pre-order as a table of contents: each node becomes an
/// entry at its nesting depth, with its page written 1-based.
pub fn build_toc(outlines: &[OutlineNode]) -> (r: Result<Toc, StructureError>)
    ensures
        r is Ok <==> depth_fits(outlines@, 0),
        r matches Ok(toc) ==> toc@ == flatten_forest(outlines@, 0),
        r is Err ==> r == Err::<Toc, StructureError>(StructureError::TooDeep),
{
    let mut entries: Vec<TocEntry> = Vec::new();
    let res = flatten_into(outlines, 0, &mut entries);
    match res {
        Ok(()) => {
            proof {
                assert(entries_view(Seq::<TocEntry>::empty()) =~= Seq::<EntryView>::empty());
                assert(entries_view(entries@) =~= flatten_forest(outlines@, 0));
            }
            Ok(Toc { entries })
        },
        Err(e) => Err(e),
    }
}

/// Every node of a forest has a page below `u32::MAX` and no link: the
/// nodes that a table of contents builds.
pub open spec fn built_nodes(f: Seq<OutlineNode>) -> bool
    decreases f,
{
    if f.len() == 0 {
        true
    } else {
        let n = f.last();
        &&& built_nodes(f.drop_last())
        &&& n.page matches Some(p) && p < u32::MAX
        &&& n.uri is None
        &&& built_nodes(n.down@)
    }
}

/// What is wrong with entry `k` itself, looking back only at entry `k - 1`:
/// a jump of more than one level into it comes before a page of 0.
pub open spec fn entry_fault(s: Seq<EntryView>, k: int) -> Option<StructureError> {
    if k > 0 && s[k].depth > s[k - 1].depth + 1 {
        Some(StructureError::DepthJump { index: k as usize })
    } else if s[k].page == 0 {
        Some(StructureError::InvalidPage { index: k as usize })
    } else {
        None
    }
}

/// The fault of the first faulty entry at or after `k`.
pub open spec fn fault_from(s: Seq<EntryView>, k: int) -> Option<StructureError>
    decreases s.len() - k,
{
    if k < 0 || k >= s.len() {
        None
    } else if entry_fault(s, k) is Some {
        entry_fault(s, k)
    } else {
        fault_from(s, k + 1)
    }
}

/// The error that building a tree from `s` reports, if any.
pub open spec fn first_fault(s: Seq<EntryView>) -> Option<StructureError> {
    if s.len() > 0 && s[0].depth != 0 {
        Some(StructureError::RootDepth)
    } else {
        fault_from(s, 0)
    }
}

/// The first entry is at depth 0 and no entry is more than one level deeper
/// than the one before it.
pub open spec fn depth_legal(s: Seq<EntryView>) -> bool {
    &&& s.len() > 0 ==> s[0].depth == 0
    &&& forall|k: int| 0 < k < s.len() ==> #[trigger] s[k].depth <= s[k - 1].depth + 1
}

/// Every entry's page is at least 1.
pub open spec fn pages_positive(s: Seq<EntryView>) -> bool {
    forall|k: int| 0 <= k < s.len() ==> #[trigger] s[k].page >= 1
}

/// No entry at or after `j` has a fault exactly when the search from `j`
/// finds none.
proof fn lemma_fault_from_none(s: Seq<EntryView>, j: int)
    requires
        0 <= j <= s.len(),
    ensures
        fault_from(s, j) is None <==> forall|k: int| j <= k < s.len() ==> #[trigger] entry_fault(s, k) is None,
    decreases s.len() - j,
{
    if j < s.len() {
        lemma_fault_from_none(s, j + 1);
    }
}

/// The fault of the first faulty entry in `k .. e`.
pub open spec fn fault_in(s: Seq<EntryView>, k: int, e: int) -> Option<StructureError>
    decreases e - k,
{
    if k < 0 || k >= e || k >= s.len() {
        None
    } else if entry_fault(s, k) is Some {
        entry_fault(s, k)
    } else {
        fault_in(s, k + 1, e)
    }
}

/// The first index at or after `k` whose entry is above `depth`, or the
/// length of `s`.
pub open spec fn level_end(s: Seq<EntryView>, depth: nat, k: int) -> int
    decreases s.len() - k,
{
    if k < 0 || k >= s.len() || s[k].depth < depth {
        k
    } else {
        level_end(s, depth, k + 1)
    }
}

/// The entries that the level at `depth` starting at `start` takes in: its
/// first entry, and all that follow up to the next one above `depth`.
pub open spec fn span_end(s: Seq<EntryView>, depth: nat, start: int) -> int {
    level_end(s, depth, start + 1)
}

/// The fault of the first faulty entry among `start .. end`; the first entry
/// is only checked for its page, since the entry before it lies outside.
pub open spec fn span_fault(s: Seq<EntryView>, start: int, end: int) -> Option<StructureError> {
    if s[start].page == 0 {
        Some(StructureError::InvalidPage { index: start as usize })
    } else {
        fault_in(s, start + 1, end)
    }
}

proof fn lemma_level_end(s: Seq<EntryView>, depth: nat, k: int)
    requires
        0 <= k <= s.len(),
    ensures
        k <= level_end(s, depth, k) <= s.len(),
        forall|m: int| k <= m < level_end(s, depth, k) ==> #[trigger] s[m].depth >= depth,
        level_end(s, depth, k) < s.len() ==> s[level_end(s, depth, k)].depth < depth,
        forall|j: int|
            k <= j <= s.len() && (j == s.len() || s[j].depth < depth) ==> level_end(s, depth, k)
                <= j,
    decreases s.len() - k,
{
    if k < s.len() && s[k].depth >= depth {
        lemma_level_end(s, depth, k + 1);
    }
}

/// The search over `i .. e` is the search over `i .. m`, and where that
/// finds nothing, the search over `m .. e`.
proof fn lemma_fault_in_split(s: Seq<EntryView>, i: int, m: int, e: int)
    requires
        0 <= i <= m <= e <= s.len(),
    ensures
        fault_in(s, i, e) == (match fault_in(s, i, m) {
            Some(f) => Some(f),
            None => fault_in(s, m, e),
        }),
    decreases m - i,
{
    if i < m {
        lemma_fault_in_split(s, i + 1, m, e);
    }
}

proof fn lemma_fault_in_whole(s: Seq<EntryView>, k: int)
    requires
        0 <= k <= s.len(),
    ensures
        fault_in(s, k, s.len() as int) == fault_from(s, k),
    decreases s.len() - k,
{
    if k < s.len() {
        lemma_fault_in_whole(s, k + 1);
    }
}

/// Builds the level at `depth` whose first entry is at `start`: that entry
/// and each following one at `depth` become siblings, and the entries one
/// level deeper after each become its children. Stops before the first entry
/// above `depth`, and returns the nodes with the index of the first entry not
/// taken in; a level whose first entry is missing or not at `depth` is empty.
/// Fails on the first faulty entry that the level takes in.
fn build_level(entries: &Vec<TocEntry>, depth: u32, start: usize) -> (r: Result<
    (Vec<OutlineNode>, usize),
    StructureError,
>)
    requires
        start <= entries@.len(),
    ensures
        ({
            let s = entries_view(entries@);
            if start < s.len() && s[start as int].depth == depth {
                let end = span_end(s, depth as nat, start as int);
                match span_fault(s, start as int, end) {
                    Some(e) => r == Err::<(Vec<OutlineNode>, usize), StructureError>(e),
                    None => r matches Ok((v, j)) && j == end && flatten_forest(v@, depth as nat)
                        == s.subrange(start as int, end) && built_nodes(v@),
                }
            } else {
                r matches Ok((v, j)) && j == start && v@.len() == 0
            }
        }),
    decreases entries@.len() - start,
{
    let ghost s = entries_view(entries@);
    let n = entries.len();
    let mut result: Vec<OutlineNode> = Vec::new();
    if start >= n || entries[start].depth != depth {
        return Ok((result, start));
    }
    let ghost end = span_end(s, depth as nat, start as int);
    proof {
        lemma_level_end(s, depth as nat, start as int + 1);
    }
    let mut i: usize = start;
    while i < n && entries[i].depth == depth
        invariant
            n == s.len(),
            s == entries_view(entries@),
            start < n,
            s[start as int].depth == depth,
            end == span_end(s, depth as nat, start as int),
            start < end <= n,
            forall|m: int| start < m < end ==> #[trigger] s[m].depth >= depth,
            end < n ==> s[end].depth < depth,
            start <= i <= end,
            i == start ==> s[i as int].depth == depth,
            i < n ==> s[i as int].depth <= depth,
            i > start ==> span_fault(s, start as int, end) == fault_in(s, i as int, end),
            flatten_forest(result@, depth as nat) == s.subrange(start as int, i as int),
            built_nodes(result@),
        decreases n - i,
    {
        let entry = &entries[i];
        let ghost at = i as int;
        assert(s[at] == entries@[at]@);
        proof {
            if at > start {
                assert(s[at - 1].depth >= depth) by {
                    if at - 1 == start {
                    } else {
                        assert(start < at - 1 < end);
                    }
                }
            }
        }
        let mut node = match new_outline(entry.title.clone(), entry.page) {
            Some(node) => node,
            None => {
                return Err(StructureError::InvalidPage { index: i });
            },
        };
        assert(span_fault(s, start as int, end) == fault_in(s, at + 1, end));
        i += 1;
        if i < n && entries[i].depth > depth {
            assert(s[i as int] == entries@[i as int]@);
            assert(i < end);
            if entries[i].depth != depth + 1 {
                return Err(StructureError::DepthJump { index: i });
            }
            let child = build_level(entries, depth + 1, i);
            let ghost cend = span_end(s, depth as nat + 1, i as int);
            proof {
                lemma_level_end(s, depth as nat + 1, i as int + 1);
                assert(cend <= end);
                lemma_fault_in_split(s, i as int + 1, cend, end);
            }
            match child {
                Ok((children, cj)) => {
                    node.down = children;
                    i = cj;
                },
                Err(e) => {
                    return Err(e);
                },
            }
        } else {
            assert(flatten_forest(node.down@, depth as nat + 1) =~= Seq::empty());
            assert(s.subrange(at + 1, i as int) =~= Seq::empty());
        }
        let ghost old_result = result@;
        result.push(node);
        proof {
            assert(result@.drop_last() =~= old_result);
            assert(built_nodes(result@.last().down@));
            assert(built_nodes(result@));
            assert(s.subrange(start as int, i as int) =~= s.subrange(start as int, at) + seq![s[at]]
                + s.subrange(at + 1, i as int));
        }
    }
    Ok((result, i))
}

/// Builds the forest that a table of contents describes. Each entry becomes
/// a node whose children are the entries one level deeper that follow it,
/// up to the next entry at its own depth or above; its page becomes
/// 0-based. Fails on the first structural fault: a first entry not at depth
/// 0, a jump of more than one level, or a page of 0.
pub fn build_outline(toc: &Toc) -> (r: Result<Vec<OutlineNode>, StructureError>)
    ensures
        r is Ok <==> first_fault(toc@) is None,
        r matches Err(e) ==> first_fault(toc@) == Some(e),
        r matches Ok(f) ==> flatten_forest(f@, 0) == toc@ && built_nodes(f@),
{
    let ghost s = toc@;
    if toc.entries.len() > 0 && toc.entries[0].depth != 0 {
        return Err(StructureError::RootDepth);
    }
    let res = build_level(&toc.entries, 0, 0);
    proof {
        lemma_fault_in_whole(s, 0);
        if s.len() > 0 {
            lemma_level_end(s, 0, 1);
            assert(span_end(s, 0, 0) == s.len());
            lemma_fault_in_whole(s, 1);
        } else {
            assert(fault_from(s, 0) is None);
        }
    }
    match res {
        Ok((f, end)) => {
            proof {
                if s.len() == 0 {
                    assert(flatten_forest(f@, 0) =~= s);
                } else {
                    assert(s.subrange(0, end as int) =~= s);
                }
            }
            Ok(f)
        },
        Err(e) => Err(e),
    }
}

/// The search from `j` reports the fault of the first faulty entry at or
/// after `j`.
proof fn lemma_fault_from_some(s: Seq<EntryView>, j: int)
    requires
        0 <= j <= s.len(),
        fault_from(s, j) is Some,
    ensures
        exists|k: int|
            j <= k < s.len() && fault_from(s, j) == #[trigger] entry_fault(s, k) && entry_fault(
                s,
                k,
            ) is Some,
    decreases s.len() - j,
{
    if entry_fault(s, j) is None {
        lemma_fault_from_none(s, j);
        lemma_fault_from_some(s, j + 1);
    } else {
        assert(fault_from(s, j) == entry_fault(s, j));
    }
}

/// Building a tree succeeds exactly when the depths are legal and every
/// page is positive.
pub proof fn lemma_build_succeeds_iff(s: Seq<EntryView>)
    ensures
        first_fault(s) is None <==> depth_legal(s) && pages_positive(s),
{
    lemma_fault_from_none(s, 0);
    if depth_legal(s) && pages_positive(s) {
        assert forall|k: int| 0 <= k < s.len() implies #[trigger] entry_fault(s, k) is None by {
            assert(s[k].page >= 1);
            if k > 0 {
                assert(s[k].depth <= s[k - 1].depth + 1);
            }
        }
    }
    if first_fault(s) is None {
        assert forall|k: int| 0 < k < s.len() implies #[trigger] s[k].depth <= s[k - 1].depth + 1 by {
            assert(entry_fault(s, k) is None);
        }
        assert forall|k: int| 0 <= k < s.len() implies #[trigger] s[k].page >= 1 by {
            assert(entry_fault(s, k) is None);
        }
    }
}

/// With every page positive, building a tree succeeds exactly when the
/// first entry is at depth 0 and no entry is more than one level deeper than
/// the one before; otherwise the error names the fault and the entry.
pub proof fn lemma_depth_legality(s: Seq<EntryView>)
    requires
        pages_positive(s),
        s.len() <= usize::MAX,
    ensures
        first_fault(s) is None <==> depth_legal(s),
        first_fault(s) == Some(StructureError::RootDepth) ==> s[0].depth != 0,
        first_fault(s) matches Some(StructureError::DepthJump { index }) ==> 0 < index < s.len()
            && s[index as int].depth > s[index - 1].depth + 1,
        !(first_fault(s) matches Some(StructureError::InvalidPage { .. })),
        !(first_fault(s) matches Some(StructureError::TooDeep)),
{
    lemma_build_succeeds_iff(s);
    if first_fault(s) is Some && (s.len() == 0 || s[0].depth == 0) {
        lemma_fault_from_some(s, 0);
        let k = choose|k: int|
            0 <= k < s.len() && fault_from(s, 0) == #[trigger] entry_fault(s, k) && entry_fault(
                s,
                k,
            ) is Some;
        assert(s[k].page >= 1);
        assert(k as usize as int == k);
    }
}

/// With legal depths, building a tree fails exactly when some page is 0,
/// and the error names the first such entry.
pub proof fn lemma_page_validation(s: Seq<EntryView>)
    requires
        depth_legal(s),
        s.len() <= usize::MAX,
    ensures
        first_fault(s) is Some <==> exists|k: int| 0 <= k < s.len() && #[trigger] s[k].page == 0,
        first_fault(s) matches Some(e) ==> e matches StructureError::InvalidPage { index } && index
            < s.len() && s[index as int].page == 0,
{
    lemma_build_succeeds_iff(s);
    if first_fault(s) is Some {
        lemma_fault_from_some(s, 0);
        let k = choose|k: int|
            0 <= k < s.len() && fault_from(s, 0) == #[trigger] entry_fault(s, k) && entry_fault(
                s,
                k,
            ) is Some;
        if k > 0 {
            assert(s[k].depth <= s[k - 1].depth + 1);
        }
        assert(k as usize as int == k);
    }
}

/// A forest whose listing has only depths that fit in `u32` has depths that
/// fit.
proof fn lemma_listed_depths_fit(f: Seq<OutlineNode>, depth: nat)
    requires
        forall|k: int| 0 <= k < flatten_forest(f, depth).len() ==> #[trigger] flatten_forest(f, depth)[k].depth <= u32::MAX,
    ensures
        depth_fits(f, depth),
    decreases f,
{
    if f.len() > 0 {
        let n = f.last();
        let a = flatten_forest(f.drop_last(), depth);
        let e = seq![EntryView { depth, page: flat_page(n.page), title: n.title@ }];
        let b = flatten_forest(n.down@, depth + 1);
        let all = flatten_forest(f, depth);
        assert(all == a + e + b);
        assert forall|k: int| 0 <= k < a.len() implies #[trigger] a[k].depth <= u32::MAX by {
            assert(all[k] == a[k]);
        }
        assert forall|k: int| 0 <= k < b.len() implies #[trigger] b[k].depth <= u32::MAX by {
            assert(all[a.len() + 1 + k] == b[k]);
        }
        assert(all[a.len() as int] == e[0]);
        lemma_listed_depths_fit(f.drop_last(), depth);
        lemma_listed_depths_fit(n.down@, depth + 1);
        assert(all[a.len() as int].depth == depth);
        assert(depth <= u32::MAX);
        assert(depth_fits(f.drop_last(), depth));
        assert(depth_fits(n.down@, depth + 1));
    }
}

/// Round trip: a table of contents with legal depths and positive pages is
/// built into a forest without error, and listing any forest whose listing
/// is those entries (as the built one is) succeeds.
pub proof fn lemma_round_trip(s: Seq<EntryView>, f: Seq<OutlineNode>)
    requires
        depth_legal(s),
        pages_positive(s),
        forall|k: int| 0 <= k < s.len() ==> #[trigger] s[k].depth <= u32::MAX,
        flatten_forest(f, 0) == s,
    ensures
        first_fault(s) is None,
        depth_fits(f, 0),
{
    lemma_build_succeeds_iff(s);
    lemma_listed_depths_fit(f, 0);
}

} // verus!
