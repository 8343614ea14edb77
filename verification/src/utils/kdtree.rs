use vstd::prelude::*;

verus! {

/// The right-child link of a node that has no right child.
pub const NO_RIGHT_CHILD: usize = 536870911usize;

/// The links of one kd-tree node: nodes are numbered in pre-order, so a
/// left child, when there is one, is the next node; the right child is
/// named by its number.
#[derive(Clone, Copy, Debug, PartialEq, Eq, Structural)]
pub struct KdLinks {
    pub has_left_child: bool,
    pub right_child: usize,
}

/// Where a run of `len` points is split: the point at this position goes
/// to the node, those before it to the left subtree, those after it to the
/// right subtree.
pub open spec fn kd_split(len: int) -> int {
    len / 2 - 1
}

/// `links[start..start + len]` is the kd-tree that the build makes of
/// `len` points.
pub open spec fn kd_layout_ok(links: Seq<KdLinks>, start: int, len: int) -> bool
    decreases len,
{
    if len < 1 {
        false
    } else if len == 1 {
        !links[start].has_left_child && links[start].right_child == NO_RIGHT_CHILD
    } else {
        let s = kd_split(len);
        let rlen = len - s - 1;
        &&& links[start].has_left_child == (s > 0)
        &&& links[start].right_child == if rlen > 0 { (start + 1 + s) as usize } else { NO_RIGHT_CHILD }
        &&& s > 0 ==> kd_layout_ok(links, start + 1, s)
        &&& rlen > 0 ==> kd_layout_ok(links, start + 1 + s, rlen)
    }
}

proof fn lemma_kd_layout_frame(a: Seq<KdLinks>, b: Seq<KdLinks>, start: int, len: int)
    requires
        kd_layout_ok(a, start, len),
        0 <= start,
        start + len <= a.len(),
        start + len <= b.len(),
        forall|i: int| start <= i < start + len ==> a[i] == b[i],
    ensures
        kd_layout_ok(b, start, len),
    decreases len,
{
    if len > 1 {
        let s = kd_split(len);
        let rlen = len - s - 1;
        if s > 0 {
            lemma_kd_layout_frame(a, b, start + 1, s);
        }
        if rlen > 0 {
            lemma_kd_layout_frame(a, b, start + 1 + s, rlen);
        }
    }
}

/// Every link of a kd-tree stays inside its subtree: a left child follows
/// its node, and a right child is a later node of the same subtree.
pub proof fn lemma_kd_links_in_range(links: Seq<KdLinks>, start: int, len: int)
    requires
        kd_layout_ok(links, start, len),
        0 <= start,
        start + len <= usize::MAX,
    ensures
        forall|i: int| start <= i < start + len ==> {
            &&& (#[trigger] links[i]).has_left_child ==> i + 1 < start + len
            &&& links[i].right_child == NO_RIGHT_CHILD || i < links[i].right_child < start + len
        },
    decreases len,
{
    if len > 1 {
        let s = kd_split(len);
        let rlen = len - s - 1;
        if s > 0 {
            lemma_kd_links_in_range(links, start + 1, s);
        }
        if rlen > 0 {
            lemma_kd_links_in_range(links, start + 1 + s, rlen);
        }
    }
}

/// The tree is balanced round the median at every size: a node over
/// `len >= 2` points has `len / 2 - 1` of them in its left subtree (which
/// follows it directly, so it has one exactly when `len >= 4`) and the other
/// `len - len / 2` in its right subtree, which starts `len / 2` nodes on.
pub proof fn lemma_kd_balanced(links: Seq<KdLinks>, start: int, len: int)
    requires
        kd_layout_ok(links, start, len),
        len >= 2,
        0 <= start,
        start + len <= usize::MAX,
    ensures
        links[start].right_child == (start + len / 2) as usize,
        links[start].has_left_child == (len >= 4),
        len >= 4 ==> kd_layout_ok(links, start + 1, len / 2 - 1),
        kd_layout_ok(links, start + len / 2, len - len / 2),
{
}

fn build_kd_links(links: &mut Vec<KdLinks>, len: usize)
    requires
        len >= 1,
        old(links)@.len() + len <= usize::MAX,
    ensures
        final(links)@.len() == old(links)@.len() + len,
        forall|i: int| 0 <= i < old(links)@.len() ==> #[trigger] final(links)@[i] == old(links)@[i],
        kd_layout_ok(final(links)@, old(links)@.len() as int, len as int),
    decreases len,
{
    let start = links.len();
    if len == 1 {
        links.push(KdLinks { has_left_child: false, right_child: NO_RIGHT_CHILD });
        return;
    }
    let s = len / 2 - 1;
    let rlen = len - s - 1;
    let right_child = if rlen > 0 { start + 1 + s } else { NO_RIGHT_CHILD };
    links.push(KdLinks { has_left_child: s > 0, right_child });
    let ghost after_node = links@;
    if s > 0 {
        build_kd_links(links, s);
    }
    let ghost after_left = links@;
    if rlen > 0 {
        build_kd_links(links, rlen);
    }
    proof {
        if s > 0 {
            lemma_kd_layout_frame(after_left, links@, start + 1, s as int);
        }
        assert(links@[start as int] == after_node[start as int]);
    }
}

/// The links of the kd-tree built over `n` points, in node order: the
/// numbering depends only on how many points there are.
pub fn kd_tree_links(n: usize) -> (r: Vec<KdLinks>)
    requires
        n >= 1,
    ensures
        r@.len() == n,
        kd_layout_ok(r@, 0, n as int),
        forall|i: int| 0 <= i < n ==> {
            &&& (#[trigger] r@[i]).has_left_child ==> i + 1 < n
            &&& r@[i].right_child == NO_RIGHT_CHILD || i < r@[i].right_child < n
        },
{
    let mut r: Vec<KdLinks> = Vec::new();
    build_kd_links(&mut r, n);
    proof {
        lemma_kd_links_in_range(r@, 0, n as int);
    }
    r
}

} // verus!
