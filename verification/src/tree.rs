//! The directory tree: which entry sits under which, the order of
//! siblings, and the drawing of branches.
use vstd::prelude::*;
use crate::sort::{
    chars_le, index_order, insertion_sort, key_views, lemma_index_order_total,
    lemma_insertion_sort_members, lemma_insertion_sort_sorted, sort_indices, SortKey,
};
use crate::ls::{is_shown, is_visible};
use crate::text::to_chars;

pub use crate::text::truncate_lines;

verus! {

/// One entry of a directory walk, in the order the walk yields them
/// (each directory before what it holds): its depth below the root (1 for
/// the root's own entries), its name, and whether it is a directory.
pub struct TreeEntry {
    pub depth: usize,
    pub name: String,
    pub is_dir: bool,
}

/// The index of the last of the first `n` entries that is at depth `d`,
/// or -1.
pub open spec fn last_at_depth(es: Seq<TreeEntry>, n: int, d: int) -> int
    decreases n,
{
    if n <= 0 {
        -1
    } else if es[n - 1].depth == d {
        n - 1
    } else {
        last_at_depth(es, n - 1, d)
    }
}

/// Where entry `k` hangs: -1 under the root (depth 1), else the index of
/// the last entry before it one level up; -2 when there is none.
pub open spec fn parent_of(es: Seq<TreeEntry>, k: int) -> int {
    if es[k].depth == 1 {
        -1
    } else if es[k].depth == 0 || last_at_depth(es, k, es[k].depth - 1) < 0 {
        -2
    } else {
        last_at_depth(es, k, es[k].depth - 1)
    }
}

/// The entries among the first `n` that hang under `p`, in walk order.
pub open spec fn children_upto(es: Seq<TreeEntry>, p: int, n: nat) -> Seq<usize>
    decreases n,
{
    if n == 0 {
        Seq::empty()
    } else {
        let r = children_upto(es, p, (n - 1) as nat);
        if parent_of(es, n - 1) == p {
            r.push((n - 1) as usize)
        } else {
            r
        }
    }
}

/// Entries keyed for sibling order: directories (rank 0) before files
/// (rank 1), then by name.
pub open spec fn tree_keys(es: Seq<TreeEntry>) -> Seq<(nat, Seq<char>)> {
    es.map_values(
        |e: TreeEntry|
            (
                if e.is_dir {
                    0nat
                } else {
                    1nat
                },
                e.name@,
            ),
    )
}

/// The entries under `p`, directories first, each group by name.
pub open spec fn sorted_children(es: Seq<TreeEntry>, p: int) -> Seq<usize> {
    insertion_sort(children_upto(es, p, es.len()), index_order(tree_keys(es)))
}

proof fn lemma_last_at_depth(es: Seq<TreeEntry>, n: int, d: int)
    requires
        n >= 0,
    ensures
        last_at_depth(es, n, d) < n,
        last_at_depth(es, n, d) >= -1,
    decreases n,
{
    if n > 0 && es[n - 1].depth != d {
        lemma_last_at_depth(es, n - 1, d);
    }
}

proof fn lemma_children_upto(es: Seq<TreeEntry>, p: int, n: nat)
    requires
        n <= usize::MAX + 1,
    ensures
        forall|i: int|
            0 <= i < children_upto(es, p, n).len() ==> p < #[trigger] children_upto(es, p, n)[i]
                < n && parent_of(es, children_upto(es, p, n)[i] as int) == p,
    decreases n,
{
    if n > 0 {
        let r = children_upto(es, p, (n - 1) as nat);
        lemma_children_upto(es, p, (n - 1) as nat);
        if parent_of(es, n - 1) == p {
            if p >= 0 {
                lemma_last_at_depth(es, n - 1, es[n - 1].depth - 1);
            }
            assert(p < n - 1);
            let c = children_upto(es, p, n);
            assert(c == r.push((n - 1) as usize));
            assert forall|i: int| 0 <= i < c.len() implies p < #[trigger] c[i] < n && parent_of(
                es,
                c[i] as int,
            ) == p by {
                if i < r.len() {
                    assert(c[i] == r[i]);
                } else {
                    assert(c[i] == (n - 1) as usize);
                }
            }
        }
    }
}

/// The entries under `p` come after `p` in the walk.
pub proof fn lemma_children_after(es: Seq<TreeEntry>, p: int)
    requires
        es.len() <= usize::MAX,
    ensures
        forall|i: int|
            0 <= i < sorted_children(es, p).len() ==> p < #[trigger] sorted_children(es, p)[i]
                < es.len() && parent_of(es, sorted_children(es, p)[i] as int) == p,
{
    let c = children_upto(es, p, es.len());
    lemma_children_upto(es, p, es.len());
    lemma_insertion_sort_members(c, index_order(tree_keys(es)));
    assert forall|i: int| 0 <= i < sorted_children(es, p).len() implies p
        < #[trigger] sorted_children(es, p)[i] < es.len() && parent_of(
        es,
        sorted_children(es, p)[i] as int,
    ) == p by {
        let x = sorted_children(es, p)[i];
        assert(c.contains(x));
        let j = choose|j: int| 0 <= j < c.len() && c[j] == x;
        assert(c[j] == x);
    }
}

/// The connector in front of an entry's name.
pub open spec fn connector(is_last: bool) -> Seq<char> {
    if is_last {
        "└── "@
    } else {
        "├── "@
    }
}

/// What the lines below an entry add to the prefix.
pub open spec fn child_prefix(is_last: bool) -> Seq<char> {
    if is_last {
        "    "@
    } else {
        "│   "@
    }
}

/// The lines of entry `k` and, for a directory, of everything under it.
pub open spec fn entry_text(es: Seq<TreeEntry>, k: int, prefix: Seq<char>, is_last: bool) -> Seq<
    char,
>
    decreases es.len() - k, 1nat, 0nat,
{
    prefix + connector(is_last) + es[k].name@ + (if es[k].is_dir {
        "/"@
    } else {
        Seq::empty()
    }) + "\n"@ + if es[k].is_dir && 0 <= k < es.len() {
        children_text(es, k, prefix + child_prefix(is_last), 0)
    } else {
        Seq::empty()
    }
}

/// The lines of the entries under `p` from the `i`-th in sibling order on.
pub open spec fn children_text(es: Seq<TreeEntry>, p: int, prefix: Seq<char>, i: nat) -> Seq<char>
    decreases es.len() - p, 0nat, sorted_children(es, p).len() - i,
{
    let kids = sorted_children(es, p);
    if i >= kids.len() || p < -1 || p >= es.len() || es.len() > usize::MAX {
        Seq::empty()
    } else {
        proof {
            lemma_children_after(es, p);
        }
        entry_text(es, kids[i as int] as int, prefix, i == kids.len() - 1) + children_text(
            es,
            p,
            prefix,
            i + 1,
        )
    }
}

/// The whole tree: the root's name on the first line, then the entries
/// under the root.
pub open spec fn tree_text(root_name: Seq<char>, es: Seq<TreeEntry>) -> Seq<char> {
    root_name + "\n"@ + children_text(es, -1, Seq::empty(), 0)
}

/// Walking `es` in order: the entries kept so far, and the depth of the
/// last left-out entry while its contents are being passed over. An entry
/// that is not shown (see `is_shown`) is left out with everything below it.
pub open spec fn prune_state(es: Seq<TreeEntry>, show_all: bool) -> (Seq<TreeEntry>, Option<usize>)
    decreases es.len(),
{
    if es.len() == 0 {
        (Seq::empty(), None)
    } else {
        let prev = prune_state(es.drop_last(), show_all);
        let e = es.last();
        if prev.1 is Some && e.depth > prev.1->0 {
            prev
        } else if is_shown(e.name@, show_all) {
            (prev.0.push(e), None)
        } else {
            (prev.0, Some(e.depth))
        }
    }
}

/// The entries of a walk that the tree shows.
pub open spec fn pruned(es: Seq<TreeEntry>, show_all: bool) -> Seq<TreeEntry> {
    prune_state(es, show_all).0
}

/// Where a walk entry hangs.
#[derive(Clone, Copy)]
enum Up {
    Root,
    At(usize),
    Lost,
}

spec fn up_int(u: Up) -> int {
    match u {
        Up::Root => -1,
        Up::At(j) => j as int,
        Up::Lost => -2,
    }
}

/// Where each entry hangs (see `parent_of`).
fn parents(es: &[TreeEntry]) -> (r: Vec<Up>)
    ensures
        r@.len() == es@.len(),
        forall|k: int| 0 <= k < es@.len() ==> up_int(#[trigger] r@[k]) == parent_of(es@, k),
{
    let mut r: Vec<Up> = Vec::new();
    let mut k: usize = 0;
    while k < es.len()
        invariant
            k <= es@.len(),
            r@.len() == k,
            forall|m: int| 0 <= m < k ==> up_int(#[trigger] r@[m]) == parent_of(es@, m),
        decreases es.len() - k,
    {
        let d = es[k].depth;
        let up = if d == 0 {
            Up::Lost
        } else if d == 1 {
            Up::Root
        } else if k > 0 && es[k - 1].depth == d {
            // a sibling just before: the same parent
            assert(up_int(r@[k - 1]) == parent_of(es@, k - 1));
            r[k - 1]
        } else {
            let mut j = k;
            while j > 0 && es[j - 1].depth != d - 1
                invariant
                    j <= k < es@.len(),
                    d == es@[k as int].depth,
                    d >= 2,
                    last_at_depth(es@, k as int, d - 1) == last_at_depth(es@, j as int, d - 1),
                decreases j,
            {
                j = j - 1;
            }
            if j > 0 {
                Up::At(j - 1)
            } else {
                Up::Lost
            }
        };
        r.push(up);
        k = k + 1;
    }
    r
}

/// The entries under the root, and under each entry, in walk order.
fn child_lists(es: &[TreeEntry], ups: &Vec<Up>) -> (r: (Vec<usize>, Vec<Vec<usize>>))
    requires
        ups@.len() == es@.len(),
        forall|k: int| 0 <= k < es@.len() ==> up_int(#[trigger] ups@[k]) == parent_of(es@, k),
    ensures
        r.0@ == children_upto(es@, -1, es@.len()),
        r.1@.len() == es@.len(),
        forall|p: int| 0 <= p < es@.len() ==> (#[trigger] r.1@[p])@ == children_upto(es@, p, es@.len()),
{
    let n = es.len();
    let mut kids: Vec<Vec<usize>> = Vec::new();
    let mut i: usize = 0;
    while i < n
        invariant
            i <= n == es@.len(),
            kids@.len() == i,
            forall|p: int| 0 <= p < i ==> (#[trigger] kids@[p])@ == Seq::<usize>::empty(),
        decreases n - i,
    {
        kids.push(Vec::new());
        i = i + 1;
    }
    let mut root: Vec<usize> = Vec::new();
    let mut k: usize = 0;
    while k < n
        invariant
            k <= n == es@.len(),
            ups@.len() == es@.len(),
            forall|m: int| 0 <= m < es@.len() ==> up_int(#[trigger] ups@[m]) == parent_of(es@, m),
            kids@.len() == n,
            root@ == children_upto(es@, -1, k as nat),
            forall|p: int| 0 <= p < n ==> (#[trigger] kids@[p])@ == children_upto(es@, p, k as nat),
        decreases n - k,
    {
        assert(up_int(ups@[k as int]) == parent_of(es@, k as int));
        match ups[k] {
            Up::Root => {
                root.push(k);
            },
            Up::At(j) => {
                if j < n {
                    kids[j].push(k);
                }
            },
            Up::Lost => {},
        }
        k = k + 1;
    }
    (root, kids)
}

/// The sort keys of the entries: directories first, then names.
fn tree_sort_keys(es: &[TreeEntry]) -> (keys: Vec<SortKey>)
    ensures
        key_views(keys@) == tree_keys(es@),
{
    let mut keys: Vec<SortKey> = Vec::new();
    let mut i: usize = 0;
    while i < es.len()
        invariant
            i <= es@.len(),
            keys@.len() == i,
            forall|j: int|
                0 <= j < i ==> (#[trigger] keys@[j]).rank == (if es@[j].is_dir {
                    0usize
                } else {
                    1usize
                }) && keys@[j].name@ == es@[j].name@,
        decreases es.len() - i,
    {
        let rank: usize = if es[i].is_dir {
            0
        } else {
            1
        };
        keys.push(SortKey { rank, name: to_chars(es[i].name.as_str()) });
        i = i + 1;
    }
    assert(key_views(keys@) =~= tree_keys(es@));
    keys
}

/// The entries under the root and under each entry, in sibling order:
/// what `print_entry` draws from.
pub fn sorted_child_lists(es: &[TreeEntry]) -> (r: (Vec<usize>, Vec<Vec<usize>>))
    ensures
        r.0@ == sorted_children(es@, -1),
        r.1@.len() == es@.len(),
        forall|p: int| 0 <= p < es@.len() ==> (#[trigger] r.1@[p])@ == sorted_children(es@, p),
{
    let ups = parents(es);
    let (root0, kids0) = child_lists(es, &ups);
    let keys = tree_sort_keys(es);
    assert(key_views(keys@).len() == keys@.len());
    assert(es@.len() == es.len());
    proof {
        lemma_children_upto(es@, -1, es@.len());
    }
    let root = sort_indices(&root0, &keys);
    let n = es.len();
    let mut kids: Vec<Vec<usize>> = Vec::new();
    let mut p: usize = 0;
    while p < n
        invariant
            p <= n == es@.len(),
            keys@.len() == n,
            key_views(keys@) == tree_keys(es@),
            kids0@.len() == n,
            forall|q: int| 0 <= q < n ==> (#[trigger] kids0@[q])@ == children_upto(es@, q, n as nat),
            kids@.len() == p,
            forall|q: int| 0 <= q < p ==> (#[trigger] kids@[q])@ == sorted_children(es@, q),
        decreases n - p,
    {
        proof {
            lemma_children_upto(es@, p as int, n as nat);
        }
        let sorted = sort_indices(&kids0[p], &keys);
        kids.push(sorted);
        p = p + 1;
    }
    (root, kids)
}

/// Appends the line of entry `k` (`prefix`, a connector, its name, `/` for
/// a directory) and, for a directory, the lines of everything under it.
pub fn print_entry(
    result: &mut String,
    prefix: &str,
    es: &[TreeEntry],
    kids: &Vec<Vec<usize>>,
    k: usize,
    is_last: bool,
)
    requires
        k < es@.len(),
        kids@.len() == es@.len(),
        forall|p: int| 0 <= p < es@.len() ==> (#[trigger] kids@[p])@ == sorted_children(es@, p),
    ensures
        final(result)@ == old(result)@ + entry_text(es@, k as int, prefix@, is_last),
    decreases es@.len() - k,
{
    let ghost start = result@;
    result.append(prefix);
    if is_last {
        result.append("└── ");
    } else {
        result.append("├── ");
    }
    result.append(es[k].name.as_str());
    if es[k].is_dir {
        result.append("/");
    }
    result.append("\n");
    if es[k].is_dir {
        let mut sub = prefix.to_owned();
        if is_last {
            sub.append("    ");
        } else {
            sub.append("│   ");
        }
        print_children(result, sub.as_str(), es, kids, &kids[k], Ghost(k as int));
    }
    assert(result@ =~= start + entry_text(es@, k as int, prefix@, is_last));
}

/// Appends the lines of the entries `children` under `p`, in order.
fn print_children(
    result: &mut String,
    prefix: &str,
    es: &[TreeEntry],
    kids: &Vec<Vec<usize>>,
    children: &Vec<usize>,
    Ghost(p): Ghost<int>,
)
    requires
        -1 <= p < es@.len(),
        children@ == sorted_children(es@, p),
        kids@.len() == es@.len(),
        forall|q: int| 0 <= q < es@.len() ==> (#[trigger] kids@[q])@ == sorted_children(es@, q),
    ensures
        final(result)@ == old(result)@ + children_text(es@, p, prefix@, 0),
    decreases es@.len() - p, 0nat,
{
    let ghost start = result@;
    assert(es@.len() == es.len());
    proof {
        lemma_children_after(es@, p);
    }
    let mut i: usize = 0;
    while i < children.len()
        invariant
            i <= children@.len(),
            -1 <= p < es@.len(),
            es@.len() <= usize::MAX,
            children@ == sorted_children(es@, p),
            kids@.len() == es@.len(),
            forall|q: int| 0 <= q < es@.len() ==> (#[trigger] kids@[q])@ == sorted_children(es@, q),
            forall|j: int|
                0 <= j < children@.len() ==> p < #[trigger] children@[j] < es@.len(),
            start + children_text(es@, p, prefix@, 0) == result@ + children_text(
                es@,
                p,
                prefix@,
                i as nat,
            ),
        decreases children@.len() - i,
    {
        let c = children[i];
        assert(p < c);
        print_entry(result, prefix, es, kids, c, i + 1 == children.len());
        assert(children_text(es@, p, prefix@, i as nat) == entry_text(
            es@,
            c as int,
            prefix@,
            i == children@.len() - 1,
        ) + children_text(es@, p, prefix@, (i + 1) as nat));
        i = i + 1;
    }
    assert(children_text(es@, p, prefix@, i as nat) == Seq::<char>::empty());
    assert(result@ =~= start + children_text(es@, p, prefix@, 0));
}

/// The entries of a walk that the tree shows (see `pruned`).
pub fn prune_walk(es: &[TreeEntry], show_all: bool) -> (r: Vec<TreeEntry>)
    ensures
        r@ == pruned(es@, show_all),
{
    let mut kept: Vec<TreeEntry> = Vec::new();
    let mut skip: Option<usize> = None;
    let mut i: usize = 0;
    while i < es.len()
        invariant
            i <= es@.len(),
            (kept@, skip) == prune_state(es@.take(i as int), show_all),
        decreases es.len() - i,
    {
        assert(es@.take(i + 1).drop_last() =~= es@.take(i as int));
        let e = &es[i];
        let inside = match skip {
            Some(d) => e.depth > d,
            None => false,
        };
        if !inside {
            if is_visible(e.name.as_str(), show_all) {
                kept.push(TreeEntry { depth: e.depth, name: e.name.clone(), is_dir: e.is_dir });
                skip = None;
            } else {
                skip = Some(e.depth);
            }
        }
        i = i + 1;
    }
    assert(es@.take(es@.len() as int) =~= es@);
    kept
}

/// The tree of a directory from a walk of it: the root's name, then one
/// line per shown entry that hangs (through its parents) under the root,
/// siblings with directories first and by name, each line led by branch
/// characters. Entries whose name begins with `.` or is a noise name are
/// left out with all below them unless `show_all`.
pub fn build_tree(root_name: &str, walk: &[TreeEntry], show_all: bool) -> (r: String)
    ensures
        r@ == tree_text(root_name@, pruned(walk@, show_all)),
{
    let kept = prune_walk(walk, show_all);
    let es = kept.as_slice();
    let (root, kids) = sorted_child_lists(es);
    let mut result = root_name.to_owned();
    result.append("\n");
    print_children(&mut result, "", es, &kids, &root, Ghost(-1));
    proof {
        reveal_strlit("");
    }
    assert(""@ =~= Seq::<char>::empty());
    assert(result@ =~= tree_text(root_name@, es@));
    result
}

/// Siblings are drawn directories first, and within each group by name.
pub proof fn lemma_siblings_in_order(es: Seq<TreeEntry>, p: int)
    requires
        es.len() <= usize::MAX,
    ensures
        forall|i: int, j: int|
            0 <= i < j < sorted_children(es, p).len() ==> {
                let a = es[#[trigger] sorted_children(es, p)[i] as int];
                let b = es[#[trigger] sorted_children(es, p)[j] as int];
                (a.is_dir && !b.is_dir) || (a.is_dir == b.is_dir && chars_le(a.name@, b.name@))
            },
{
    let c = children_upto(es, p, es.len());
    let le = index_order(tree_keys(es));
    let k = sorted_children(es, p);
    lemma_index_order_total(tree_keys(es));
    lemma_insertion_sort_sorted(c, le);
    lemma_children_after(es, p);
    assert forall|i: int, j: int| 0 <= i < j < k.len() implies {
        let a = es[#[trigger] k[i] as int];
        let b = es[#[trigger] k[j] as int];
        (a.is_dir && !b.is_dir) || (a.is_dir == b.is_dir && chars_le(a.name@, b.name@))
    } by {
        assert(le(k[i], k[j]));
        assert(tree_keys(es)[k[i] as int].1 == es[k[i] as int].name@);
        assert(tree_keys(es)[k[j] as int].1 == es[k[j] as int].name@);
    }
}

/// Whether every entry after `j` up to and including `k` lies deeper than
/// entry `j`: the walk is still inside `j`'s directory at `k`.
pub open spec fn inside(es: Seq<TreeEntry>, j: int, k: int) -> bool {
    forall|i: int| j < i <= k ==> #[trigger] es[i].depth > es[j].depth
}

/// What the pruning state of a walk says about left-out entries: a pending
/// skip depth is that of a left-out entry the walk is still inside, and
/// every left-out entry the walk is still inside has a skip at its depth
/// or above.
proof fn lemma_prune_skip(es: Seq<TreeEntry>)
    ensures
        prune_state(es, false).1 is Some ==> exists|j: int|
            0 <= j < es.len() && !is_shown(es[j].name@, false) && es[j].depth
                == prune_state(es, false).1->0 && #[trigger] inside(es, j, es.len() - 1),
        forall|j: int|
            0 <= j < es.len() && !is_shown(es[j].name@, false) && #[trigger] inside(es, j, es.len() - 1)
                ==> prune_state(es, false).1 is Some && prune_state(es, false).1->0 <= es[j].depth,
    decreases es.len(),
{
    if es.len() > 0 {
        let n = es.len() - 1;
        let d = es.drop_last();
        lemma_prune_skip(d);
        let prev = prune_state(d, false);
        let e = es.last();
        assert forall|j: int, i: int| 0 <= j < n && j < i <= n - 1 implies d[i] == es[i] && d[j] == es[j] by {}
        if prev.1 is Some && e.depth > prev.1->0 {
            let j = choose|j: int|
                0 <= j < d.len() && !is_shown(d[j].name@, false) && d[j].depth == prev.1->0
                    && #[trigger] inside(d, j, d.len() - 1);
            assert(inside(es, j, n));
            assert forall|j2: int|
                0 <= j2 < es.len() && !is_shown(es[j2].name@, false) && #[trigger] inside(es, j2, n)
                    implies prune_state(es, false).1 is Some && prune_state(es, false).1->0 <= es[j2].depth by {
                if j2 < n {
                    assert(inside(d, j2, n - 1));
                }
            }
        } else if is_shown(e.name@, false) {
            assert forall|j2: int|
                0 <= j2 < es.len() && !is_shown(es[j2].name@, false) && #[trigger] inside(es, j2, n)
                    implies false by {
                if j2 < n {
                    assert(inside(d, j2, n - 1));
                    assert(es[n].depth > es[j2].depth);
                }
            }
        } else {
            assert(inside(es, n, n));
            assert forall|j2: int|
                0 <= j2 < es.len() && !is_shown(es[j2].name@, false) && #[trigger] inside(es, j2, n)
                    implies prune_state(es, false).1 is Some && prune_state(es, false).1->0 <= es[j2].depth by {
                if j2 < n {
                    assert(inside(d, j2, n - 1));
                    assert(es[n].depth > es[j2].depth);
                }
            }
        }
    }
}

/// Without `show_all`, nothing below a left-out entry is drawn: an entry
/// the walk reaches while still inside a left-out directory adds nothing
/// to the tree.
pub proof fn lemma_left_out_subtree_stays_out(es: Seq<TreeEntry>, j: int, k: int)
    requires
        0 <= j < k < es.len(),
        !is_shown(es[j].name@, false),
        inside(es, j, k),
    ensures
        pruned(es.take(k + 1), false) == pruned(es.take(k), false),
{
    let t = es.take(k);
    assert(es.take(k + 1).drop_last() =~= t);
    assert(es.take(k + 1).last() == es[k]);
    assert(inside(t, j, k - 1));
    lemma_prune_skip(t);
}

/// Without `show_all`, a shown entry that lies inside no left-out entry
/// is drawn: it is added to the tree right after what came before it.
pub proof fn lemma_shown_entry_is_kept(es: Seq<TreeEntry>, k: int)
    requires
        0 <= k < es.len(),
        is_shown(es[k].name@, false),
        forall|j: int| 0 <= j < k && !is_shown(es[j].name@, false) ==> !#[trigger] inside(es, j, k),
    ensures
        pruned(es.take(k + 1), false) == pruned(es.take(k), false).push(es[k]),
{
    let t = es.take(k);
    assert(es.take(k + 1).drop_last() =~= t);
    assert(es.take(k + 1).last() == es[k]);
    lemma_prune_skip(t);
    let prev = prune_state(t, false);
    if prev.1 is Some && es[k].depth > prev.1->0 {
        let j = choose|j: int|
            0 <= j < t.len() && !is_shown(t[j].name@, false) && t[j].depth == prev.1->0
                && #[trigger] inside(t, j, t.len() - 1);
        assert forall|i: int| j < i <= k implies #[trigger] es[i].depth > es[j].depth by {
            if i < k {
                assert(t[i] == es[i]);
            }
        }
        assert(inside(es, j, k));
        assert(false);
    }
}

/// The tree draws no entry that is not shown: without `show_all`, no
/// name that begins with `.` and no noise name; with `show_all` the walk is
/// kept whole.
pub proof fn lemma_pruned_are_shown(es: Seq<TreeEntry>, show_all: bool)
    ensures
        forall|i: int|
            0 <= i < pruned(es, show_all).len() ==> is_shown(
                (#[trigger] pruned(es, show_all)[i]).name@,
                show_all,
            ),
        show_all ==> pruned(es, show_all) == es,
    decreases es.len(),
{
    if es.len() > 0 {
        lemma_pruned_are_shown(es.drop_last(), show_all);
        let prev = prune_state(es.drop_last(), show_all);
        if show_all {
            lemma_show_all_keeps_going(es.drop_last());
            assert(prev.1 is None);
            assert(es.drop_last().push(es.last()) =~= es);
        }
        let cur = pruned(es, show_all);
        assert forall|i: int| 0 <= i < cur.len() implies is_shown(
            (#[trigger] cur[i]).name@,
            show_all,
        ) by {
            assert(prev.0 == pruned(es.drop_last(), show_all));
            if !(prev.1 is Some && es.last().depth > prev.1->0) && is_shown(es.last().name@, show_all) {
                assert(cur == prev.0.push(es.last()));
                if i < prev.0.len() {
                    assert(cur[i] == prev.0[i]);
                } else {
                    assert(cur[i] == es.last());
                }
            } else {
                assert(cur == prev.0);
            }
        }
    }
}

proof fn lemma_show_all_keeps_going(es: Seq<TreeEntry>)
    ensures
        prune_state(es, true).1 is None,
    decreases es.len(),
{
    if es.len() > 0 {
        lemma_show_all_keeps_going(es.drop_last());
    }
}

} // verus!
