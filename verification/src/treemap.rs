//! What the treemap shows of a folder: its largest children, each as an item
//! of its own, and one combined item for everything smaller.

use vstd::prelude::*;
use crate::scan::{bytes_after, children_ok, sizes_negatable, Node, ScanTree};
use crate::sorting::{sort_stable_with, stable_sort};
use crate::clean::{count_text, fmt_count};
use crate::text::append_str;

verus! {

/// At most this many children are drawn as items of their own.
pub const MAX_RECTS: usize = 40;

/// A treemap item: a child node, or the combined smaller items (which have
/// no node). The combined item's label says how many files it holds.
#[derive(Clone, Debug, PartialEq, Eq)]
pub struct Item {
    pub node: Option<usize>,
    pub label: String,
    pub bytes: i64,
    pub files: i64,
    pub is_dir: bool,
    pub denied: bool,
    pub synthetic: bool,
}

pub struct ItemView {
    pub node: Option<usize>,
    pub label: Seq<char>,
    pub bytes: i64,
    pub files: i64,
    pub is_dir: bool,
    pub denied: bool,
    pub synthetic: bool,
}

impl View for Item {
    type V = ItemView;

    open spec fn view(&self) -> ItemView {
        ItemView {
            node: self.node,
            label: self.label@,
            bytes: self.bytes,
            files: self.files,
            is_dir: self.is_dir,
            denied: self.denied,
            synthetic: self.synthetic,
        }
    }
}

pub open spec fn items_view(s: Seq<Item>) -> Seq<ItemView> {
    s.map_values(|i: Item| i@)
}

/// A child shown as an item of its own.
pub open spec fn child_item(nodes: Seq<Node>, c: usize) -> ItemView {
    let n = nodes[c as int];
    ItemView {
        node: Some(c),
        label: n.name@,
        bytes: n.bytes,
        files: n.files,
        is_dir: n.is_dir,
        denied: n.denied,
        synthetic: false,
    }
}

/// The children at positions below 40 of `order` that hold something, as items.
pub open spec fn shown_items(nodes: Seq<Node>, order: Seq<usize>) -> Seq<ItemView>
    decreases order.len(),
{
    if order.len() == 0 {
        Seq::empty()
    } else {
        let rest = shown_items(nodes, order.drop_last());
        let c = order.last();
        if nodes[c as int].bytes > 0 && order.len() - 1 < MAX_RECTS {
            rest.push(child_item(nodes, c))
        } else {
            rest
        }
    }
}

/// The bytes of the children past the first 40 positions that hold something.
pub open spec fn overflow_bytes(nodes: Seq<Node>, order: Seq<usize>) -> int
    decreases order.len(),
{
    if order.len() == 0 {
        0
    } else {
        let c = order.last();
        overflow_bytes(nodes, order.drop_last()) + if nodes[c as int].bytes > 0 && order.len() - 1 >= MAX_RECTS {
            nodes[c as int].bytes as int
        } else {
            0
        }
    }
}

/// The file counts of the same children.
pub open spec fn overflow_files(nodes: Seq<Node>, order: Seq<usize>) -> int
    decreases order.len(),
{
    if order.len() == 0 {
        0
    } else {
        let c = order.last();
        overflow_files(nodes, order.drop_last()) + if nodes[c as int].bytes > 0 && order.len() - 1 >= MAX_RECTS {
            nodes[c as int].files as int
        } else {
            0
        }
    }
}

/// The children of `i` largest first.
pub open spec fn ordered_children(nodes: Seq<Node>, i: int) -> Seq<usize> {
    stable_sort(nodes[i].children@, bytes_after(nodes))
}

/// The running totals of the combined item stay within `i64` at every step.
pub open spec fn totals_fit(nodes: Seq<Node>, i: int) -> bool {
    let order = ordered_children(nodes, i);
    &&& forall|k: int|
        0 <= k <= order.len() ==> i64::MIN <= #[trigger] overflow_bytes(nodes, order.take(k)) <= i64::MAX
    &&& forall|k: int|
        0 <= k <= order.len() ==> i64::MIN <= #[trigger] overflow_files(nodes, order.take(k)) <= i64::MAX
    &&& i64::MIN <= nodes[i].small_bytes + overflow_bytes(nodes, order) <= i64::MAX
    &&& i64::MIN <= nodes[i].small_count + overflow_files(nodes, order) <= i64::MAX
}

/// The label of the combined item: the count of the files it holds.
pub open spec fn combined_label(files: i64) -> Seq<char> {
    count_text(files) + " smaller items"@
}

/// The items of folder `i`: its children largest first, the first 40
/// positions that hold something as items, then one combined item for the
/// rest and the folder's own small files, when that holds something.
pub open spec fn collect_spec(nodes: Seq<Node>, i: int) -> Seq<ItemView> {
    let order = ordered_children(nodes, i);
    let small_b = nodes[i].small_bytes + overflow_bytes(nodes, order);
    let small_c = nodes[i].small_count + overflow_files(nodes, order);
    let shown = shown_items(nodes, order);
    if small_b > 0 {
        shown.push(
            ItemView {
                node: None,
                label: combined_label(small_c as i64),
                bytes: small_b as i64,
                files: small_c as i64,
                is_dir: false,
                denied: false,
                synthetic: true,
            },
        )
    } else {
        shown
    }
}

fn child_bytes_after(ctx: &&ScanTree, a: &usize, b: &usize) -> (r: bool)
    requires
        *a < (**ctx)@.len(),
        *b < (**ctx)@.len(),
    ensures
        r == ((**ctx)@[*a as int].bytes < (**ctx)@[*b as int].bytes),
{
    ctx.node(*a).bytes < ctx.node(*b).bytes
}

pub fn collect_items(tree: &ScanTree, i: usize) -> (r: Vec<Item>)
    requires
        tree.wf(),
        i < tree@.len(),
        sizes_negatable(tree@),
        totals_fit(tree@, i as int),
    ensures
        items_view(r@) == collect_spec(tree@, i as int),
{
    proof {
        tree.lemma_wf();
        assert(children_ok(tree@, i as int));
    }
    let kids = tree.node(i).children.clone();
    let ghost ok = |c: usize| c < tree@.len();
    let order = sort_stable_with(kids, &tree, child_bytes_after, Ghost(bytes_after(tree@)), Ghost(ok));
    let mut items: Vec<Item> = Vec::new();
    let mut over_b: i64 = 0;
    let mut over_c: i64 = 0;
    let mut k: usize = 0;
    proof {
        assert(order@.take(0) =~= Seq::<usize>::empty());
        assert(items_view(items@) =~= Seq::<ItemView>::empty());
    }
    while k < order.len()
        invariant
            tree.wf(),
            i < tree@.len(),
            order@ == ordered_children(tree@, i as int),
            forall|m: int| 0 <= m < order@.len() ==> #[trigger] order@[m] < tree@.len(),
            totals_fit(tree@, i as int),
            k <= order@.len(),
            items_view(items@) == shown_items(tree@, order@.take(k as int)),
            over_b == overflow_bytes(tree@, order@.take(k as int)),
            over_c == overflow_files(tree@, order@.take(k as int)),
        decreases order.len() - k,
    {
        let c = order[k];
        proof {
            assert(order@.take(k + 1).drop_last() =~= order@.take(k as int));
            assert(order@.take(k + 1).last() == c);
            assert(i64::MIN <= overflow_bytes(tree@, order@.take(k + 1)) <= i64::MAX);
            assert(i64::MIN <= overflow_files(tree@, order@.take(k + 1)) <= i64::MAX);
        }
        let n = tree.node(c);
        let ghost before = items_view(items@);
        if n.bytes > 0 {
            if k < MAX_RECTS {
                items.push(Item {
                    node: Some(c),
                    label: n.name.clone(),
                    bytes: n.bytes,
                    files: n.files,
                    is_dir: n.is_dir,
                    denied: n.denied,
                    synthetic: false,
                });
                assert(items_view(items@) =~= before.push(child_item(tree@, c)));
            } else {
                over_b = over_b + n.bytes;
                over_c = over_c + n.files;
            }
        }
        k += 1;
    }
    proof {
        assert(order@.take(order@.len() as int) =~= order@);
    }
    let node = tree.node(i);
    let small_b = node.small_bytes + over_b;
    let small_c = node.small_count + over_c;
    if small_b > 0 {
        let ghost before = items_view(items@);
        let mut label = fmt_count(small_c);
        append_str(&mut label, " smaller items");
        items.push(Item {
            node: None,
            label,
            bytes: small_b,
            files: small_c,
            is_dir: false,
            denied: false,
            synthetic: true,
        });
        assert(items_view(items@) =~= before.push(items@.last()@));
    }
    items
}

} // verus!
