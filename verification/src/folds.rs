//! Fold candidates from a syntax tree: every named node that meets a byte
//! range and spans at least three rows, one per starting row (the first one
//! found in document order), by starting row.
use crate::syntax::{tree_wf, SyntaxTree};
use crate::indent::tree_fits;
use crate::text::{char_boundary, is_char_boundary_at, newlines_before, rope_bytes, rope_text, row_of};
use ropey::Rope;
use std::ops::Range;
use vstd::prelude::*;

verus! {

/// Rows `start_line..=end_line` that can fold into one.
#[derive(Clone, Copy, Debug, PartialEq, Eq, Structural)]
pub struct FoldRange {
    pub start_line: usize,
    pub end_line: usize,
}

impl FoldRange {
    pub fn new(start_line: usize, end_line: usize) -> (r: Self)
        ensures
            r.start_line == start_line,
            r.end_line == end_line,
    {
        FoldRange { start_line, end_line }
    }
}

/// Child and sibling links point to later nodes, as in a tree numbered in
/// document order.
pub open spec fn links_forward(t: &SyntaxTree) -> bool {
    forall|i: int|
        0 <= i < t.nodes@.len() ==> {
            &&& ((#[trigger] t.nodes@[i]).first_child matches Some(c) ==> c > i)
            &&& (t.nodes@[i].next_sibling matches Some(n) ==> n > i)
        }
}

/// The fold a node offers, if it meets the range and spans three rows or more.
pub open spec fn node_fold(t: &SyntaxTree, b: Seq<u8>, rs: int, re: int, node: usize) -> Option<FoldRange> {
    let n = t.nodes@[node as int];
    let start = row_of(b, n.start_byte as int);
    let end = row_of(b, n.end_byte as int);
    if n.end_byte <= rs || n.start_byte >= re || end < start + 2 {
        None
    } else {
        Some(FoldRange { start_line: start as usize, end_line: end as usize })
    }
}

/// The folds of a node and, where it offers one, of its named descendants,
/// in document order.
pub open spec fn node_folds(t: &SyntaxTree, b: Seq<u8>, rs: int, re: int, node: usize) -> Seq<FoldRange>
    decreases t.nodes@.len() - node, 1int,
{
    if node >= t.nodes@.len() {
        Seq::empty()
    } else {
        match node_fold(t, b, rs, re, node) {
            None => Seq::empty(),
            Some(f) => seq![f] + match t.nodes@[node as int].first_child {
                Some(c) => if node < c < t.nodes@.len() {
                    children_folds(t, b, rs, re, c)
                } else {
                    Seq::empty()
                },
                None => Seq::empty(),
            },
        }
    }
}

/// The folds of the named nodes from `child` along its siblings.
pub open spec fn children_folds(t: &SyntaxTree, b: Seq<u8>, rs: int, re: int, child: usize) -> Seq<FoldRange>
    decreases t.nodes@.len() - child, 2int,
{
    if child >= t.nodes@.len() {
        Seq::empty()
    } else {
        let n = t.nodes@[child as int];
        (if n.is_named {
            node_folds(t, b, rs, re, child)
        } else {
            Seq::empty()
        }) + match n.next_sibling {
            Some(s) => if child < s < t.nodes@.len() {
                children_folds(t, b, rs, re, s)
            } else {
                Seq::empty()
            },
            None => Seq::empty(),
        }
    }
}

/// Whether a fold starts on the row.
pub open spec fn has_start(acc: Seq<FoldRange>, row: usize) -> bool {
    exists|i: int| 0 <= i < acc.len() && (#[trigger] acc[i]).start_line == row
}

/// Place a fold among folds ordered by starting row.
pub open spec fn insert_by_start(acc: Seq<FoldRange>, f: FoldRange) -> Seq<FoldRange>
    decreases acc.len(),
{
    if acc.len() == 0 {
        seq![f]
    } else if acc[0].start_line > f.start_line {
        seq![f] + acc
    } else {
        seq![acc[0]] + insert_by_start(acc.drop_first(), f)
    }
}

/// The folds ordered by starting row, keeping for each starting row the
/// first fold found (a stable sort by starting row, then dropping later
/// folds that start on the same row).
pub open spec fn first_per_start(folds: Seq<FoldRange>) -> Seq<FoldRange>
    decreases folds.len(),
{
    if folds.len() == 0 {
        Seq::empty()
    } else {
        let acc = first_per_start(folds.drop_last());
        if has_start(acc, folds.last().start_line) {
            acc
        } else {
            insert_by_start(acc, folds.last())
        }
    }
}

/// The fold candidates of the tree over a byte range.
pub open spec fn fold_ranges_spec(t: &SyntaxTree, b: Seq<u8>, rs: int, re: int) -> Seq<FoldRange> {
    first_per_start(
        match t.nodes@[0].first_child {
            Some(c) => if 0 < c < t.nodes@.len() {
                children_folds(t, b, rs, re, c)
            } else {
                Seq::empty()
            },
            None => Seq::empty(),
        },
    )
}

// ---------------------------------------------------------------------------
// Executable steps.

/// The row of every offset of the text, the text's end included.
fn row_table(b: &[u8]) -> (r: Vec<usize>)
    requires
        b@.len() < usize::MAX,
    ensures
        r@.len() == b@.len() + 1,
        forall|k: int| 0 <= k <= b@.len() ==> #[trigger] r@[k] == newlines_before(b@, k),
{
    let mut r: Vec<usize> = Vec::new();
    r.push(0);
    let mut k: usize = 0;
    while k < b.len()
        invariant
            k <= b@.len() < usize::MAX,
            r@.len() == k + 1,
            forall|q: int| 0 <= q <= k ==> #[trigger] r@[q] == newlines_before(b@, q),
            r@[k as int] <= k,
        decreases b@.len() - k,
    {
        let next = if b[k] == 10u8 {
            r[k] + 1
        } else {
            r[k]
        };
        r.push(next);
        k += 1;
    }
    r
}

/// The row of an offset (clipped to the text), by the table.
fn row_at(rows: &Vec<usize>, Ghost(b): Ghost<Seq<u8>>, offset: usize) -> (r: usize)
    requires
        rows@.len() == b.len() + 1,
        forall|k: int| 0 <= k <= b.len() ==> #[trigger] rows@[k] == newlines_before(b, k),
    ensures
        r == row_of(b, offset as int),
{
    let last = rows.len() - 1;
    if offset <= last {
        rows[offset]
    } else {
        rows[last]
    }
}

/// Add the folds of a node and its named descendants.
fn node_folds_in(
    t: &SyntaxTree,
    rows: &Vec<usize>,
    Ghost(b): Ghost<Seq<u8>>,
    rs: usize,
    re: usize,
    node: usize,
    out: &mut Vec<FoldRange>,
)
    requires
        tree_wf(t),
        links_forward(t),
        node < t.nodes@.len(),
        rows@.len() == b.len() + 1,
        forall|k: int| 0 <= k <= b.len() ==> #[trigger] rows@[k] == newlines_before(b, k),
    ensures
        final(out)@ == old(out)@ + node_folds(t, b, rs as int, re as int, node),
    decreases t.nodes@.len() - node, 1int,
{
    let n = &t.nodes[node];
    let start = row_at(rows, Ghost(b), n.start_byte);
    let end = row_at(rows, Ghost(b), n.end_byte);
    if n.end_byte <= rs || n.start_byte >= re || end < start || end - start < 2 {
        assert(node_folds(t, b, rs as int, re as int, node) =~= Seq::<FoldRange>::empty());
        return;
    }
    let ghost before = out@;
    out.push(FoldRange::new(start, end));
    match n.first_child {
        Some(c) => {
            children_folds_in(t, rows, Ghost(b), rs, re, c, out);
        },
        None => {},
    }
    assert(out@ =~= before + node_folds(t, b, rs as int, re as int, node));
}

/// Add the folds of the named nodes from `child` along its siblings.
fn children_folds_in(
    t: &SyntaxTree,
    rows: &Vec<usize>,
    Ghost(b): Ghost<Seq<u8>>,
    rs: usize,
    re: usize,
    child: usize,
    out: &mut Vec<FoldRange>,
)
    requires
        tree_wf(t),
        links_forward(t),
        child < t.nodes@.len(),
        rows@.len() == b.len() + 1,
        forall|k: int| 0 <= k <= b.len() ==> #[trigger] rows@[k] == newlines_before(b, k),
    ensures
        final(out)@ == old(out)@ + children_folds(t, b, rs as int, re as int, child),
    decreases t.nodes@.len() - child, 2int,
{
    let ghost before = out@;
    let n = &t.nodes[child];
    if n.is_named {
        node_folds_in(t, rows, Ghost(b), rs, re, child, out);
    }
    let ghost mid = out@;
    match n.next_sibling {
        Some(s) => {
            children_folds_in(t, rows, Ghost(b), rs, re, s, out);
        },
        None => {},
    }
    assert(out@ =~= before + children_folds(t, b, rs as int, re as int, child));
}

/// Placing a fold before the first fold that starts on a later row.
proof fn lemma_insert_by_start(acc: Seq<FoldRange>, f: FoldRange, p: int)
    requires
        0 <= p <= acc.len(),
        forall|k: int| 0 <= k < p ==> (#[trigger] acc[k]).start_line <= f.start_line,
        p == acc.len() || acc[p].start_line > f.start_line,
    ensures
        insert_by_start(acc, f) == acc.insert(p, f),
    decreases acc.len(),
{
    if acc.len() == 0 {
        assert(acc.insert(p, f) =~= seq![f]);
    } else if p == 0 {
        assert(acc.insert(p, f) =~= seq![f] + acc);
    } else {
        let rest = acc.drop_first();
        assert forall|k: int| 0 <= k < p - 1 implies (#[trigger] rest[k]).start_line <= f.start_line by {
            assert(rest[k] == acc[k + 1]);
        }
        if p < acc.len() {
            assert(rest[p - 1] == acc[p]);
        }
        lemma_insert_by_start(rest, f, p - 1);
        assert(acc.insert(p, f) =~= seq![acc[0]] + rest.insert(p - 1, f));
    }
}

/// The folds by starting row, the first for each row.
fn first_per_start_in(folds: &Vec<FoldRange>) -> (r: Vec<FoldRange>)
    ensures
        r@ == first_per_start(folds@),
{
    let mut acc: Vec<FoldRange> = Vec::new();
    let mut i: usize = 0;
    while i < folds.len()
        invariant
            i <= folds@.len(),
            acc@ == first_per_start(folds@.subrange(0, i as int)),
        decreases folds@.len() - i,
    {
        let f = folds[i];
        let ghost pre = folds@.subrange(0, i + 1);
        assert(pre.drop_last() =~= folds@.subrange(0, i as int));
        assert(pre.last() == f);
        let mut k: usize = 0;
        let mut found = false;
        while k < acc.len()
            invariant
                k <= acc@.len(),
                found ==> has_start(acc@, f.start_line),
                !found ==> forall|q: int| 0 <= q < k ==> (#[trigger] acc@[q]).start_line != f.start_line,
            decreases acc@.len() - k,
        {
            if acc[k].start_line == f.start_line {
                found = true;
            }
            k += 1;
        }
        if !found {
            let mut p: usize = 0;
            while p < acc.len() && acc[p].start_line <= f.start_line
                invariant
                    p <= acc@.len(),
                    forall|q: int| 0 <= q < p ==> (#[trigger] acc@[q]).start_line <= f.start_line,
                decreases acc@.len() - p,
            {
                p += 1;
            }
            proof {
                lemma_insert_by_start(acc@, f, p as int);
            }
            acc.insert(p, f);
        }
        i += 1;
    }
    assert(folds@.subrange(0, folds@.len() as int) =~= folds@);
    acc
}

/// The fold candidates of the tree over a byte range of the text it was
/// parsed from: each named node that meets the range and spans three rows or
/// more (a node that does not is not searched further), one per starting row
/// (the first in document order), by starting row.
pub fn fold_ranges(tree: &SyntaxTree, text: &Rope, range: Range<usize>) -> (r: Vec<FoldRange>)
    requires
        tree_wf(tree),
        links_forward(tree),
        rope_bytes(*text).len() < usize::MAX,
    ensures
        r@ == fold_ranges_spec(tree, rope_bytes(*text), range.start as int, range.end as int),
{
    let s = rope_text(text);
    let b = s.as_str().as_bytes();
    let rows = row_table(b);
    let mut found: Vec<FoldRange> = Vec::new();
    match tree.nodes[0].first_child {
        Some(c) => {
            children_folds_in(tree, &rows, Ghost(b@), range.start, range.end, c, &mut found);
        },
        None => {},
    }
    assert(found@ =~= match tree.nodes@[0].first_child {
        Some(c) => if 0 < c < tree.nodes@.len() {
            children_folds(tree, b@, range.start as int, range.end as int, c)
        } else {
            Seq::empty()
        },
        None => Seq::empty(),
    });
    first_per_start_in(&found)
}

/// The fold candidates over the whole text.
pub fn all_fold_ranges(tree: &SyntaxTree, text: &Rope) -> (r: Vec<FoldRange>)
    requires
        tree_wf(tree),
        links_forward(tree),
        rope_bytes(*text).len() < usize::MAX,
    ensures
        r@ == fold_ranges_spec(tree, rope_bytes(*text), 0, usize::MAX as int),
{
    fold_ranges(tree, text, 0..usize::MAX)
}

/// Folds ordered strictly by starting row.
pub open spec fn strictly_by_start(s: Seq<FoldRange>) -> bool {
    forall|i: int, j: int| 0 <= i < j < s.len() ==> (#[trigger] s[i]).start_line < (#[trigger] s[j]).start_line
}

proof fn lemma_insert_keeps_order(acc: Seq<FoldRange>, f: FoldRange)
    requires
        strictly_by_start(acc),
        !has_start(acc, f.start_line),
    ensures
        strictly_by_start(insert_by_start(acc, f)),
        forall|x: FoldRange| #[trigger] insert_by_start(acc, f).contains(x) <==> (acc.contains(x) || x == f),
    decreases acc.len(),
{
    if acc.len() == 0 {
        assert forall|x: FoldRange| #[trigger] insert_by_start(acc, f).contains(x) <==> (acc.contains(x) || x == f) by {
            assert(insert_by_start(acc, f) == seq![f]);
            if x == f {
                assert(seq![f][0] == f);
            }
        }
    } else if acc[0].start_line > f.start_line {
        let r = seq![f] + acc;
        assert forall|i: int, j: int| 0 <= i < j < r.len() implies (#[trigger] r[i]).start_line < (#[trigger] r[j]).start_line by {
            if i == 0 {
                assert(r[j] == acc[j - 1]);
                if j - 1 > 0 {
                    assert(acc[0].start_line < acc[j - 1].start_line);
                }
            } else {
                assert(r[i] == acc[i - 1] && r[j] == acc[j - 1]);
            }
        }
        assert forall|x: FoldRange| r.contains(x) <==> (acc.contains(x) || x == f) by {
            if r.contains(x) {
                let k = choose|k: int| 0 <= k < r.len() && r[k] == x;
                if k > 0 {
                    assert(acc[k - 1] == x);
                }
            }
            if acc.contains(x) {
                let k = choose|k: int| 0 <= k < acc.len() && acc[k] == x;
                assert(r[k + 1] == x);
            }
            if x == f {
                assert(r[0] == x);
            }
        }
    } else {
        let rest = acc.drop_first();
        assert(strictly_by_start(rest)) by {
            assert forall|i: int, j: int| 0 <= i < j < rest.len() implies (#[trigger] rest[i]).start_line < (#[trigger] rest[j]).start_line by {
                assert(rest[i] == acc[i + 1] && rest[j] == acc[j + 1]);
            }
        }
        assert(!has_start(rest, f.start_line)) by {
            if has_start(rest, f.start_line) {
                let k = choose|k: int| 0 <= k < rest.len() && (#[trigger] rest[k]).start_line == f.start_line;
                assert(acc[k + 1] == rest[k]);
            }
        }
        assert(acc[0].start_line != f.start_line) by {
            if acc[0].start_line == f.start_line {
                assert(has_start(acc, f.start_line));
            }
        }
        lemma_insert_keeps_order(rest, f);
        let tail = insert_by_start(rest, f);
        let r = seq![acc[0]] + tail;
        assert forall|i: int, j: int| 0 <= i < j < r.len() implies (#[trigger] r[i]).start_line < (#[trigger] r[j]).start_line by {
            if i == 0 {
                assert(r[j] == tail[j - 1]);
                assert(tail.contains(tail[j - 1]));
                if rest.contains(tail[j - 1]) {
                    let k = choose|k: int| 0 <= k < rest.len() && rest[k] == tail[j - 1];
                    assert(acc[k + 1] == rest[k]);
                }
            } else {
                assert(r[i] == tail[i - 1] && r[j] == tail[j - 1]);
            }
        }
        assert forall|x: FoldRange| r.contains(x) <==> (acc.contains(x) || x == f) by {
            if r.contains(x) {
                let k = choose|k: int| 0 <= k < r.len() && r[k] == x;
                if k > 0 {
                    assert(tail[k - 1] == x);
                    assert(tail.contains(x));
                    if rest.contains(x) {
                        let q = choose|q: int| 0 <= q < rest.len() && rest[q] == x;
                        assert(acc[q + 1] == x);
                    }
                } else {
                    assert(acc[0] == x);
                }
            }
            if acc.contains(x) {
                let k = choose|k: int| 0 <= k < acc.len() && acc[k] == x;
                if k > 0 {
                    assert(rest[k - 1] == x);
                    assert(rest.contains(x));
                    assert(tail.contains(x));
                    let q = choose|q: int| 0 <= q < tail.len() && tail[q] == x;
                    assert(r[q + 1] == x);
                } else {
                    assert(r[0] == x);
                }
            }
            if x == f {
                assert(tail.contains(f));
                let q = choose|q: int| 0 <= q < tail.len() && tail[q] == f;
                assert(r[q + 1] == f);
            }
        }
    }
}

/// The fold candidates come strictly ordered by starting row: no row starts
/// two folds.
pub proof fn lemma_folds_by_distinct_start(folds: Seq<FoldRange>)
    ensures
        strictly_by_start(first_per_start(folds)),
    decreases folds.len(),
{
    if folds.len() > 0 {
        lemma_folds_by_distinct_start(folds.drop_last());
        let acc = first_per_start(folds.drop_last());
        if !has_start(acc, folds.last().start_line) {
            lemma_insert_keeps_order(acc, folds.last());
        }
    }
}

/// Whether one node's links name nodes of the tree (child and sibling later
/// ones) and its span lies within the text on character boundaries.
pub open spec fn node_fits(t: &SyntaxTree, b: Seq<u8>, i: int) -> bool {
    let n = t.nodes@[i];
    &&& n.parent matches Some(p) ==> p < t.nodes@.len()
    &&& n.first_child matches Some(c) ==> i < c < t.nodes@.len()
    &&& n.next_sibling matches Some(x) ==> i < x < t.nodes@.len()
    &&& n.start_byte <= n.end_byte <= b.len()
    &&& char_boundary(b, n.start_byte as int)
    &&& char_boundary(b, n.end_byte as int)
}

/// Whether a tree can be handed to the library's tree queries over `text`:
/// it has a root, its links name its nodes and point forward, and every
/// node's span lies within the text on character boundaries.
pub fn tree_checks(tree: &SyntaxTree, text: &Rope) -> (r: bool)
    ensures
        r == (tree_wf(tree) && tree_fits(tree, rope_bytes(*text)) && links_forward(tree)),
{
    let s = rope_text(text);
    let b = s.as_str().as_bytes();
    let ghost bytes = rope_bytes(*text);
    assert(b@ == bytes);
    let n = tree.nodes.len();
    let mut i: usize = 0;
    while i < n
        invariant
            n == tree.nodes@.len(),
            b@ == bytes,
            bytes == rope_bytes(*text),
            i <= n,
            forall|k: int| 0 <= k < i ==> node_fits(tree, bytes, k),
        decreases n - i,
    {
        let node = &tree.nodes[i];
        let links = (match node.parent {
            Some(p) => p < n,
            None => true,
        }) && (match node.first_child {
            Some(c) => i < c && c < n,
            None => true,
        }) && (match node.next_sibling {
            Some(x) => i < x && x < n,
            None => true,
        });
        if !links || node.start_byte > node.end_byte || node.end_byte > b.len() {
            proof {
                assert(tree.nodes@[i as int] == *node);
                assert(!node_fits(tree, bytes, i as int));
                lemma_node_fits_all(tree, bytes, i as int);
            }
            return false;
        }
        if !is_char_boundary_at(b, node.start_byte) || !is_char_boundary_at(b, node.end_byte) {
            proof {
                assert(tree.nodes@[i as int] == *node);
                assert(!node_fits(tree, bytes, i as int));
                lemma_node_fits_all(tree, bytes, i as int);
            }
            return false;
        }
        assert(node_fits(tree, bytes, i as int));
        i += 1;
    }
    proof {
        lemma_node_fits_all(tree, bytes, -1);
    }
    n > 0
}

/// The whole-tree conditions hold exactly when every node fits; a node
/// that does not fit breaks one of them.
proof fn lemma_node_fits_all(t: &SyntaxTree, b: Seq<u8>, bad: int)
    ensures
        (forall|k: int| 0 <= k < t.nodes@.len() ==> node_fits(t, b, k)) ==> tree_fits(t, b) && links_forward(t)
            && (t.nodes@.len() > 0 ==> tree_wf(t)),
        0 <= bad < t.nodes@.len() && !node_fits(t, b, bad) ==> !(tree_wf(t) && tree_fits(t, b) && links_forward(t)),
{
    if forall|k: int| 0 <= k < t.nodes@.len() ==> node_fits(t, b, k) {
        assert forall|k: int| 0 <= k < t.nodes@.len() implies {
            &&& (#[trigger] t.nodes@[k]).start_byte <= t.nodes@[k].end_byte <= b.len()
            &&& char_boundary(b, t.nodes@[k].start_byte as int)
            &&& char_boundary(b, t.nodes@[k].end_byte as int)
            &&& (t.nodes@[k].first_child matches Some(c) ==> c > k)
            &&& (t.nodes@[k].next_sibling matches Some(x) ==> x > k)
            &&& (t.nodes@[k].parent matches Some(p) ==> p < t.nodes@.len())
            &&& (t.nodes@[k].first_child matches Some(c) ==> c < t.nodes@.len())
            &&& (t.nodes@[k].next_sibling matches Some(x) ==> x < t.nodes@.len())
        } by {
            assert(node_fits(t, b, k));
        }
    }
    if 0 <= bad < t.nodes@.len() && !node_fits(t, b, bad) {
        let n = t.nodes@[bad];
        assert(n == t.nodes@[bad]);
    }
}

} // verus!
