//! Hierarchical grouping of notifications: a tree keyed by strings, whose leaves are
//! notifications keyed by their id.
use vstd::prelude::*;
use vstd::multiset::Multiset;
use crate::data::notification::{Notification, NotificationView};
use crate::text::{chars_of, decimal, u32_to_decimal, lemma_decimal_injective};

verus! {

#[derive(Debug, PartialEq)]
pub enum ClusterNode {
    Cluster(NotificationCluster),
    Leaf(Notification),
}

/// Children are kept in increasing key order, with no key twice.
#[derive(Debug, PartialEq)]
pub struct NotificationCluster {
    pub children: Vec<(String, ClusterNode)>,
}

/// Mathematical value of a node.
pub enum NodeView {
    Group(Seq<(Seq<char>, NodeView)>),
    Item(NotificationView),
}

pub open spec fn node_view(n: ClusterNode) -> NodeView
    decreases n, 0int,
{
    match n {
        ClusterNode::Cluster(c) => NodeView::Group(children_view(c.children@)),
        ClusterNode::Leaf(x) => NodeView::Item(x@),
    }
}

pub open spec fn children_view(s: Seq<(String, ClusterNode)>) -> Seq<(Seq<char>, NodeView)>
    decreases s, 1int,
{
    if s.len() == 0 {
        Seq::empty()
    } else {
        children_view(s.drop_last()).push((s.last().0@, node_view(s.last().1)))
    }
}

impl View for NotificationCluster {
    type V = Seq<(Seq<char>, NodeView)>;

    open spec fn view(&self) -> Seq<(Seq<char>, NodeView)> {
        children_view(self.children@)
    }
}

impl View for ClusterNode {
    type V = NodeView;

    open spec fn view(&self) -> NodeView {
        node_view(*self)
    }
}

pub proof fn lemma_children_view(s: Seq<(String, ClusterNode)>)
    ensures
        children_view(s).len() == s.len(),
        forall|j: int|
            0 <= j < s.len() ==> #[trigger] children_view(s)[j] == (s[j].0@, node_view(s[j].1)),
    decreases s.len(),
{
    if s.len() > 0 {
        lemma_children_view(s.drop_last());
    }
}


// ---------------------------------------------------------------------------
// Mathematical model
// ---------------------------------------------------------------------------

/// Lexicographic order of character sequences. It is the order of `String`'s `Ord`:
/// UTF-8 byte order and code-point order agree.
pub open spec fn seq_lt(a: Seq<char>, b: Seq<char>) -> bool
    decreases a.len(),
{
    if a.len() == 0 {
        b.len() > 0
    } else if b.len() == 0 {
        false
    } else if a[0] != b[0] {
        a[0] < b[0]
    } else {
        seq_lt(a.drop_first(), b.drop_first())
    }
}

pub open spec fn has_key(c: Seq<(Seq<char>, NodeView)>, k: Seq<char>) -> bool {
    exists|i: int| 0 <= i < c.len() && c[i].0 == k
}

/// Position of the child keyed `k` (meaningful when there is one).
pub open spec fn key_pos(c: Seq<(Seq<char>, NodeView)>, k: Seq<char>) -> int {
    choose|i: int| 0 <= i < c.len() && c[i].0 == k
}

/// The child keyed `k`.
pub open spec fn get_child(c: Seq<(Seq<char>, NodeView)>, k: Seq<char>) -> Option<NodeView> {
    if has_key(c, k) {
        Some(c[key_pos(c, k)].1)
    } else {
        None
    }
}

/// First position at or after `j` whose key is greater than `k`, or the length.
pub open spec fn first_greater(c: Seq<(Seq<char>, NodeView)>, k: Seq<char>, j: int) -> int
    decreases c.len() - j,
{
    if j < 0 || j >= c.len() {
        c.len() as int
    } else if seq_lt(k, c[j].0) {
        j
    } else {
        first_greater(c, k, j + 1)
    }
}

/// `c` with the child keyed `k` set to `v`: replaced in place, or inserted before the
/// first greater key.
pub open spec fn set_child(c: Seq<(Seq<char>, NodeView)>, k: Seq<char>, v: NodeView) -> Seq<
    (Seq<char>, NodeView),
> {
    if has_key(c, k) {
        c.update(key_pos(c, k), (k, v))
    } else {
        c.insert(first_greater(c, k, 0), (k, v))
    }
}

/// `c` without the child keyed `k`.
pub open spec fn remove_child(c: Seq<(Seq<char>, NodeView)>, k: Seq<char>) -> Seq<
    (Seq<char>, NodeView),
> {
    if has_key(c, k) {
        c.remove(key_pos(c, k))
    } else {
        c
    }
}

pub open spec fn keys_distinct(c: Seq<(Seq<char>, NodeView)>) -> bool {
    forall|i: int, j: int| 0 <= i < j < c.len() ==> c[i].0 != c[j].0
}

/// Well-formed tree: in every group, no key occurs twice.
pub open spec fn cl_wf(c: Seq<(Seq<char>, NodeView)>) -> bool
    decreases c, 1int,
{
    &&& keys_distinct(c)
    &&& forall|i: int| 0 <= i < c.len() ==> node_wf(#[trigger] c[i].1)
}

pub open spec fn node_wf(n: NodeView) -> bool
    decreases n, 0int,
{
    match n {
        NodeView::Group(c) => cl_wf(c),
        NodeView::Item(_) => true,
    }
}

/// Number of notifications in a group.
pub open spec fn cl_len(c: Seq<(Seq<char>, NodeView)>) -> nat
    decreases c, 1int,
{
    if c.len() == 0 {
        0
    } else {
        cl_len(c.drop_last()) + node_len(c.last().1)
    }
}

pub open spec fn node_len(n: NodeView) -> nat
    decreases n, 0int,
{
    match n {
        NodeView::Group(c) => cl_len(c),
        NodeView::Item(_) => 1,
    }
}

/// The notifications of a group, children in order, depth first.
pub open spec fn cl_leafs(c: Seq<(Seq<char>, NodeView)>) -> Seq<NotificationView>
    decreases c, 1int,
{
    if c.len() == 0 {
        Seq::empty()
    } else {
        cl_leafs(c.drop_last()) + node_leafs(c.last().1)
    }
}

pub open spec fn node_leafs(n: NodeView) -> Seq<NotificationView>
    decreases n, 0int,
{
    match n {
        NodeView::Group(c) => cl_leafs(c),
        NodeView::Item(x) => seq![x],
    }
}

/// `a` ranks above `b`: more urgent, or as urgent and created later.
pub open spec fn ranks_above(a: NotificationView, b: NotificationView) -> bool {
    a.urgency > b.urgency || (a.urgency == b.urgency && a.created_at > b.created_at)
}

/// The better of a current pick and a later candidate; ties keep the current pick.
pub open spec fn pick(acc: Option<NotificationView>, cand: Option<NotificationView>) -> Option<
    NotificationView,
> {
    match (acc, cand) {
        (None, x) => x,
        (Some(a), None) => Some(a),
        (Some(a), Some(c)) => if ranks_above(c, a) {
            Some(c)
        } else {
            Some(a)
        },
    }
}

/// The first notification of `s` that no other ranks above.
pub open spec fn best_of(s: Seq<NotificationView>) -> Option<NotificationView>
    decreases s.len(),
{
    if s.len() == 0 {
        None
    } else {
        pick(best_of(s.drop_last()), Some(s.last()))
    }
}

/// Urgency of a group: that of its best notification, 0 when empty.
pub open spec fn urgency_of(s: Seq<NotificationView>) -> u8 {
    match best_of(s) {
        Some(n) => n.urgency,
        None => 0,
    }
}

pub proof fn lemma_best_of_single(n: NotificationView)
    ensures
        best_of(seq![n]) == Some(n),
        urgency_of(seq![n]) == n.urgency,
{
    assert(seq![n].drop_last() =~= Seq::<NotificationView>::empty());
    assert(best_of(Seq::<NotificationView>::empty()) is None);
}

pub open spec fn views(s: Seq<Notification>) -> Seq<NotificationView> {
    s.map_values(|n: Notification| n@)
}

// ---------------------------------------------------------------------------
// Lemmas on the model
// ---------------------------------------------------------------------------

pub proof fn lemma_pick_assoc(
    a: Option<NotificationView>,
    b: Option<NotificationView>,
    c: Option<NotificationView>,
)
    ensures
        pick(pick(a, b), c) == pick(a, pick(b, c)),
{
}

pub proof fn lemma_best_of_concat(s1: Seq<NotificationView>, s2: Seq<NotificationView>)
    ensures
        best_of(s1 + s2) == pick(best_of(s1), best_of(s2)),
    decreases s2.len(),
{
    if s2.len() == 0 {
        assert(s1 + s2 =~= s1);
        assert(pick(best_of(s1), None) == best_of(s1));
    } else {
        lemma_best_of_concat(s1, s2.drop_last());
        assert((s1 + s2).drop_last() =~= s1 + s2.drop_last());
        lemma_pick_assoc(best_of(s1), best_of(s2.drop_last()), Some(s2.last()));
    }
}

pub proof fn lemma_cl_len_leafs(c: Seq<(Seq<char>, NodeView)>)
    ensures
        cl_len(c) == cl_leafs(c).len(),
    decreases c, 1int,
{
    if c.len() > 0 {
        lemma_cl_len_leafs(c.drop_last());
        lemma_node_len_leafs(c.last().1);
    }
}

pub proof fn lemma_node_len_leafs(n: NodeView)
    ensures
        node_len(n) == node_leafs(n).len(),
    decreases n, 0int,
{
    match n {
        NodeView::Group(c) => lemma_cl_len_leafs(c),
        NodeView::Item(_) => {},
    }
}

/// Length and leaves of a prefix of children.
pub proof fn lemma_prefix_step(c: Seq<(Seq<char>, NodeView)>, i: int)
    requires
        0 <= i < c.len(),
    ensures
        cl_len(c.subrange(0, i + 1)) == cl_len(c.subrange(0, i)) + node_len(c[i].1),
        cl_leafs(c.subrange(0, i + 1)) == cl_leafs(c.subrange(0, i)) + node_leafs(c[i].1),
{
    assert(c.subrange(0, i + 1).drop_last() =~= c.subrange(0, i));
}

pub proof fn lemma_prefix_len_le(c: Seq<(Seq<char>, NodeView)>, i: int)
    requires
        0 <= i <= c.len(),
    ensures
        cl_len(c.subrange(0, i)) <= cl_len(c),
    decreases c.len() - i,
{
    if i < c.len() {
        lemma_prefix_len_le(c, i + 1);
        lemma_prefix_step(c, i);
    } else {
        assert(c.subrange(0, i) =~= c);
    }
}



// ---------------------------------------------------------------------------
// Tree operations on the model
// ---------------------------------------------------------------------------

/// The tree after filing `n` under the path `keys`: each key names a group (an existing
/// leaf at that key becomes a group holding it under its id); the notification itself
/// is keyed by its id in decimal, replacing whatever had that key.
pub open spec fn insert_view(
    c: Seq<(Seq<char>, NodeView)>,
    keys: Seq<Seq<char>>,
    n: NotificationView,
) -> Seq<(Seq<char>, NodeView)>
    decreases keys.len(),
{
    if keys.len() == 0 {
        set_child(c, decimal(n.id as nat), NodeView::Item(n))
    } else {
        let k = keys[0];
        let base = match get_child(c, k) {
            Some(NodeView::Group(sub)) => sub,
            Some(NodeView::Item(old)) => set_child(
                Seq::empty(),
                decimal(old.id as nat),
                NodeView::Item(old),
            ),
            None => Seq::empty(),
        };
        set_child(c, k, NodeView::Group(insert_view(base, keys.drop_first(), n)))
    }
}

/// Removal of notification `id` along `keys`: the tree afterwards and the notification
/// removed. At the end of the path the child keyed by the id goes (a group there goes
/// too, and nothing is reported); a leaf met on the path goes when it has that id;
/// groups left empty are removed.
pub open spec fn remove_view(c: Seq<(Seq<char>, NodeView)>, keys: Seq<Seq<char>>, id: u32) -> (
    Seq<(Seq<char>, NodeView)>,
    Option<NotificationView>,
)
    decreases keys.len(),
{
    if keys.len() == 0 {
        let k = decimal(id as nat);
        match get_child(c, k) {
            Some(NodeView::Item(x)) => (remove_child(c, k), Some(x)),
            Some(NodeView::Group(_)) => (remove_child(c, k), None),
            None => (c, None),
        }
    } else {
        let k = keys[0];
        match get_child(c, k) {
            Some(NodeView::Group(sub)) => {
                let (sub2, r) = remove_view(sub, keys.drop_first(), id);
                (
                    if sub2.len() == 0 {
                        remove_child(c, k)
                    } else {
                        set_child(c, k, NodeView::Group(sub2))
                    },
                    r,
                )
            },
            Some(NodeView::Item(x)) => if x.id == id {
                (remove_child(c, k), Some(x))
            } else {
                (c, None)
            },
            None => (c, None),
        }
    }
}

/// Removal of the child keyed `k`: the tree afterwards and the notifications removed.
pub open spec fn remove_branch_view(c: Seq<(Seq<char>, NodeView)>, k: Seq<char>) -> (
    Seq<(Seq<char>, NodeView)>,
    Seq<NotificationView>,
) {
    match get_child(c, k) {
        Some(node) => (remove_child(c, k), node_leafs(node)),
        None => (c, Seq::empty()),
    }
}

/// Removal of the branch at the end of `path` (through groups only); groups left
/// empty are removed.
pub open spec fn remove_branch_path_view(c: Seq<(Seq<char>, NodeView)>, path: Seq<Seq<char>>) -> (
    Seq<(Seq<char>, NodeView)>,
    Seq<NotificationView>,
)
    decreases path.len(),
{
    if path.len() == 0 {
        (c, Seq::empty())
    } else if path.len() == 1 {
        remove_branch_view(c, path[0])
    } else {
        match get_child(c, path[0]) {
            Some(NodeView::Group(sub)) => {
                let (sub2, r) = remove_branch_path_view(sub, path.drop_first());
                (
                    if sub2.len() == 0 {
                        remove_child(c, path[0])
                    } else {
                        set_child(c, path[0], NodeView::Group(sub2))
                    },
                    r,
                )
            },
            _ => (c, Seq::empty()),
        }
    }
}

/// Whether every key of `ctx` names a group, each inside the previous one.
pub open spec fn has_context_view(c: Seq<(Seq<char>, NodeView)>, ctx: Seq<Seq<char>>) -> bool
    decreases ctx.len(),
{
    if ctx.len() == 0 {
        true
    } else {
        match get_child(c, ctx[0]) {
            Some(NodeView::Group(sub)) => has_context_view(sub, ctx.drop_first()),
            _ => false,
        }
    }
}

/// Follows `ctx` through groups as far as it goes: the keys followed and the group reached.
pub open spec fn walk_view(c: Seq<(Seq<char>, NodeView)>, ctx: Seq<Seq<char>>) -> (
    Seq<Seq<char>>,
    Seq<(Seq<char>, NodeView)>,
)
    decreases ctx.len(),
{
    if ctx.len() == 0 {
        (Seq::empty(), c)
    } else {
        match get_child(c, ctx[0]) {
            Some(NodeView::Group(sub)) => {
                let (p, d) = walk_view(sub, ctx.drop_first());
                (seq![ctx[0]] + p, d)
            },
            _ => (Seq::empty(), c),
        }
    }
}

/// Auto-descent: while the group reached has a single child and it is a group, enter it;
/// when `at_root`, a first step into a group of more than one notification is not taken.
pub open spec fn descend_view(c: Seq<(Seq<char>, NodeView)>, at_root: bool) -> (
    Seq<Seq<char>>,
    Seq<(Seq<char>, NodeView)>,
)
    decreases c,
{
    if c.len() == 1 {
        match c[0].1 {
            NodeView::Group(sub) => if at_root && cl_len(sub) > 1 {
                (Seq::empty(), c)
            } else {
                let (p, d) = descend_view(sub, false);
                (seq![c[0].0] + p, d)
            },
            NodeView::Item(_) => (Seq::empty(), c),
        }
    } else {
        (Seq::empty(), c)
    }
}

/// The path a context resolves to, and the group it designates.
pub open spec fn resolve_view(c: Seq<(Seq<char>, NodeView)>, ctx: Seq<Seq<char>>, auto_descend: bool) -> (
    Seq<Seq<char>>,
    Seq<(Seq<char>, NodeView)>,
) {
    let (p, d) = walk_view(c, ctx);
    if auto_descend {
        let (p2, d2) = descend_view(d, p.len() == 0 && ctx.len() == 0);
        (p + p2, d2)
    } else {
        (p, d)
    }
}

// ---------------------------------------------------------------------------
// Lemmas on the tree operations
// ---------------------------------------------------------------------------

pub proof fn lemma_get_child(c: Seq<(Seq<char>, NodeView)>, k: Seq<char>, i: int)
    requires
        keys_distinct(c),
        0 <= i < c.len(),
        c[i].0 == k,
    ensures
        has_key(c, k),
        key_pos(c, k) == i,
        get_child(c, k) == Some(c[i].1),
{
    assert(has_key(c, k));
    let j = key_pos(c, k);
    if j != i {
        if j < i {
            assert(c[j].0 != c[i].0);
        } else {
            assert(c[i].0 != c[j].0);
        }
    }
}

pub proof fn lemma_first_greater(c: Seq<(Seq<char>, NodeView)>, k: Seq<char>, j: int)
    requires
        0 <= j <= c.len(),
    ensures
        j <= first_greater(c, k, j) <= c.len(),
    decreases c.len() - j,
{
    if j < c.len() && !seq_lt(k, c[j].0) {
        lemma_first_greater(c, k, j + 1);
    }
}

pub proof fn lemma_set_child_wf(c: Seq<(Seq<char>, NodeView)>, k: Seq<char>, v: NodeView)
    requires
        cl_wf(c),
        node_wf(v),
    ensures
        cl_wf(set_child(c, k, v)),
        has_key(set_child(c, k, v), k),
        get_child(set_child(c, k, v), k) == Some(v),
        forall|k2: Seq<char>| k2 != k ==> get_child(set_child(c, k, v), k2) == get_child(c, k2),
{
    let r = set_child(c, k, v);
    if has_key(c, k) {
        let p = key_pos(c, k);
        lemma_get_child(c, k, p);
        assert(keys_distinct(r));
        assert forall|i: int| 0 <= i < r.len() implies node_wf(#[trigger] r[i].1) by {
            if i != p {
                assert(r[i] == c[i]);
            }
        }
        lemma_get_child(r, k, p);
        assert forall|k2: Seq<char>| k2 != k implies get_child(r, k2) == get_child(c, k2) by {
            if has_key(c, k2) {
                let q = key_pos(c, k2);
                lemma_get_child(r, k2, q);
            }
            if has_key(r, k2) {
                let q = key_pos(r, k2);
                lemma_get_child(c, k2, q);
            }
        }
    } else {
        let p = first_greater(c, k, 0);
        lemma_first_greater(c, k, 0);
        assert forall|i: int, j: int| 0 <= i < j < r.len() implies r[i].0 != r[j].0 by {
            if i < p && j < p {
                assert(c[i].0 != c[j].0);
            } else if i < p && j == p {
                assert(c[i].0 != k);
            } else if i < p && j > p {
                assert(r[j] == c[j - 1]);
                assert(c[i].0 != c[j - 1].0);
            } else if i == p {
                assert(r[j] == c[j - 1]);
                assert(c[j - 1].0 != k);
            } else {
                assert(r[i] == c[i - 1]);
                assert(r[j] == c[j - 1]);
                assert(c[i - 1].0 != c[j - 1].0);
            }
        }
        assert forall|i: int| 0 <= i < r.len() implies node_wf(#[trigger] r[i].1) by {
            if i < p {
                assert(r[i] == c[i]);
            } else if i > p {
                assert(r[i] == c[i - 1]);
            }
        }
        lemma_get_child(r, k, p);
        assert forall|k2: Seq<char>| k2 != k implies get_child(r, k2) == get_child(c, k2) by {
            if has_key(c, k2) {
                let q = key_pos(c, k2);
                if q < p {
                    lemma_get_child(r, k2, q);
                } else {
                    assert(r[q + 1] == c[q]);
                    lemma_get_child(r, k2, q + 1);
                }
            }
            if has_key(r, k2) {
                let q = key_pos(r, k2);
                if q < p {
                    lemma_get_child(c, k2, q);
                } else {
                    assert(q != p);
                    assert(r[q] == c[q - 1]);
                    lemma_get_child(c, k2, q - 1);
                }
            }
        }
    }
}

pub proof fn lemma_remove_child_wf(c: Seq<(Seq<char>, NodeView)>, k: Seq<char>)
    requires
        cl_wf(c),
    ensures
        cl_wf(remove_child(c, k)),
        !has_key(remove_child(c, k), k),
        forall|k2: Seq<char>| k2 != k ==> get_child(remove_child(c, k), k2) == get_child(c, k2),
{
    let r = remove_child(c, k);
    if has_key(c, k) {
        let p = key_pos(c, k);
        lemma_get_child(c, k, p);
        assert forall|i: int, j: int| 0 <= i < j < r.len() implies r[i].0 != r[j].0 by {
            let i2 = if i < p { i } else { i + 1 };
            let j2 = if j < p { j } else { j + 1 };
            assert(r[i] == c[i2]);
            assert(r[j] == c[j2]);
            assert(c[i2].0 != c[j2].0);
        }
        assert forall|i: int| 0 <= i < r.len() implies node_wf(#[trigger] r[i].1) by {
            let i2 = if i < p { i } else { i + 1 };
            assert(r[i] == c[i2]);
        }
        if has_key(r, k) {
            let q = key_pos(r, k);
            let q2 = if q < p { q } else { q + 1 };
            assert(r[q] == c[q2]);
            assert(c[q2].0 != c[p].0);
        }
        assert forall|k2: Seq<char>| k2 != k implies get_child(r, k2) == get_child(c, k2) by {
            if has_key(c, k2) {
                let q = key_pos(c, k2);
                assert(q != p);
                if q < p {
                    lemma_get_child(r, k2, q);
                } else {
                    assert(r[q - 1] == c[q]);
                    lemma_get_child(r, k2, q - 1);
                }
            }
            if has_key(r, k2) {
                let q = key_pos(r, k2);
                let q2 = if q < p { q } else { q + 1 };
                assert(r[q] == c[q2]);
                lemma_get_child(c, k2, q2);
            }
        }
    }
}

pub proof fn lemma_get_child_wf(c: Seq<(Seq<char>, NodeView)>, k: Seq<char>)
    requires
        cl_wf(c),
        has_key(c, k),
    ensures
        node_wf(get_child(c, k).unwrap()),
{
    let p = key_pos(c, k);
    assert(node_wf(c[p].1));
}

pub proof fn lemma_insert_wf(c: Seq<(Seq<char>, NodeView)>, keys: Seq<Seq<char>>, n: NotificationView)
    requires
        cl_wf(c),
    ensures
        cl_wf(insert_view(c, keys, n)),
    decreases keys.len(),
{
    if keys.len() == 0 {
        lemma_set_child_wf(c, decimal(n.id as nat), NodeView::Item(n));
    } else {
        let k = keys[0];
        let base = match get_child(c, k) {
            Some(NodeView::Group(sub)) => sub,
            Some(NodeView::Item(old)) => set_child(
                Seq::empty(),
                decimal(old.id as nat),
                NodeView::Item(old),
            ),
            None => Seq::empty(),
        };
        if has_key(c, k) {
            lemma_get_child_wf(c, k);
        }
        match get_child(c, k) {
            Some(NodeView::Item(old)) => {
                lemma_set_child_wf(Seq::empty(), decimal(old.id as nat), NodeView::Item(old));
            },
            _ => {},
        }
        assert(cl_wf(base));
        lemma_insert_wf(base, keys.drop_first(), n);
        lemma_set_child_wf(c, k, NodeView::Group(insert_view(base, keys.drop_first(), n)));
    }
}

pub proof fn lemma_remove_wf(c: Seq<(Seq<char>, NodeView)>, keys: Seq<Seq<char>>, id: u32)
    requires
        cl_wf(c),
    ensures
        cl_wf(remove_view(c, keys, id).0),
    decreases keys.len(),
{
    if keys.len() == 0 {
        lemma_remove_child_wf(c, decimal(id as nat));
    } else {
        let k = keys[0];
        lemma_remove_child_wf(c, k);
        match get_child(c, k) {
            Some(NodeView::Group(sub)) => {
                lemma_get_child_wf(c, k);
                lemma_remove_wf(sub, keys.drop_first(), id);
                let (sub2, r) = remove_view(sub, keys.drop_first(), id);
                lemma_set_child_wf(c, k, NodeView::Group(sub2));
            },
            _ => {},
        }
    }
}

pub proof fn lemma_remove_branch_path_wf(c: Seq<(Seq<char>, NodeView)>, path: Seq<Seq<char>>)
    requires
        cl_wf(c),
    ensures
        cl_wf(remove_branch_path_view(c, path).0),
    decreases path.len(),
{
    if path.len() == 1 {
        lemma_remove_child_wf(c, path[0]);
    } else if path.len() > 1 {
        lemma_remove_child_wf(c, path[0]);
        match get_child(c, path[0]) {
            Some(NodeView::Group(sub)) => {
                lemma_get_child_wf(c, path[0]);
                lemma_remove_branch_path_wf(sub, path.drop_first());
                let (sub2, r) = remove_branch_path_view(sub, path.drop_first());
                lemma_set_child_wf(c, path[0], NodeView::Group(sub2));
            },
            _ => {},
        }
    }
}



/// A child holds no more notifications than its parent.
pub proof fn lemma_child_len_le(c: Seq<(Seq<char>, NodeView)>, i: int)
    requires
        0 <= i < c.len(),
    ensures
        node_len(c[i].1) <= cl_len(c),
{
    lemma_prefix_step(c, i);
    lemma_prefix_len_le(c, i + 1);
}


// ---------------------------------------------------------------------------
// Laws of the tree
// ---------------------------------------------------------------------------

pub proof fn lemma_concat_len_leafs(a: Seq<(Seq<char>, NodeView)>, b: Seq<(Seq<char>, NodeView)>)
    ensures
        cl_len(a + b) == cl_len(a) + cl_len(b),
        cl_leafs(a + b) == cl_leafs(a) + cl_leafs(b),
    decreases b.len(),
{
    if b.len() == 0 {
        assert(a + b =~= a);
        assert(cl_leafs(a) + Seq::<NotificationView>::empty() =~= cl_leafs(a));
    } else {
        lemma_concat_len_leafs(a, b.drop_last());
        assert((a + b).drop_last() =~= a + b.drop_last());
        assert((a + b).last() == b.last());
        assert(cl_leafs(a) + cl_leafs(b.drop_last()) + node_leafs(b.last().1) =~= cl_leafs(a) + (
        cl_leafs(b.drop_last()) + node_leafs(b.last().1)));
    }
}

pub proof fn lemma_singleton(x: (Seq<char>, NodeView))
    ensures
        cl_len(seq![x]) == node_len(x.1),
        cl_leafs(seq![x]) == node_leafs(x.1),
{
    let s = seq![x];
    let e = Seq::<(Seq<char>, NodeView)>::empty();
    assert(s.drop_last() =~= e);
    assert(cl_len(e) == 0);
    assert(cl_leafs(e) == Seq::<NotificationView>::empty());
    assert(s.last() == x);
    assert(cl_leafs(s) == cl_leafs(e) + node_leafs(x.1));
    assert(cl_leafs(e) + node_leafs(x.1) =~= node_leafs(x.1));
}

/// Splits the children at position `p` around that child.
pub proof fn lemma_split_at(c: Seq<(Seq<char>, NodeView)>, p: int)
    requires
        0 <= p < c.len(),
    ensures
        cl_len(c) == cl_len(c.subrange(0, p)) + node_len(c[p].1) + cl_len(c.subrange(p + 1, c.len() as int)),
        cl_leafs(c) == cl_leafs(c.subrange(0, p)) + node_leafs(c[p].1) + cl_leafs(c.subrange(p + 1, c.len() as int)),
{
    let a = c.subrange(0, p);
    let b = c.subrange(p + 1, c.len() as int);
    assert(c =~= a + seq![c[p]] + b);
    lemma_concat_len_leafs(a + seq![c[p]], b);
    lemma_concat_len_leafs(a, seq![c[p]]);
    lemma_singleton(c[p]);
}

/// Count of a group after setting or removing one child.
pub proof fn lemma_set_remove_len(c: Seq<(Seq<char>, NodeView)>, k: Seq<char>, v: NodeView)
    requires
        cl_wf(c),
    ensures
        has_key(c, k) ==> cl_len(set_child(c, k, v)) + node_len(get_child(c, k).unwrap()) == cl_len(c) + node_len(v),
        !has_key(c, k) ==> cl_len(set_child(c, k, v)) == cl_len(c) + node_len(v),
        has_key(c, k) ==> cl_len(remove_child(c, k)) + node_len(get_child(c, k).unwrap()) == cl_len(c),
        !has_key(c, k) ==> remove_child(c, k) == c,
{
    if has_key(c, k) {
        let p = key_pos(c, k);
        lemma_get_child(c, k, p);
        let u = set_child(c, k, v);
        lemma_split_at(c, p);
        lemma_split_at(u, p);
        assert(u.subrange(0, p) =~= c.subrange(0, p));
        assert(u.subrange(p + 1, u.len() as int) =~= c.subrange(p + 1, c.len() as int));
        let r = remove_child(c, k);
        assert(r =~= c.subrange(0, p) + c.subrange(p + 1, c.len() as int));
        lemma_concat_len_leafs(c.subrange(0, p), c.subrange(p + 1, c.len() as int));
    } else {
        let q = first_greater(c, k, 0);
        lemma_first_greater(c, k, 0);
        let u = set_child(c, k, v);
        assert(u =~= c.subrange(0, q) + seq![(k, v)] + c.subrange(q, c.len() as int));
        lemma_concat_len_leafs(c.subrange(0, q) + seq![(k, v)], c.subrange(q, c.len() as int));
        lemma_concat_len_leafs(c.subrange(0, q), seq![(k, v)]);
        lemma_concat_len_leafs(c.subrange(0, q), c.subrange(q, c.len() as int));
        assert(c =~= c.subrange(0, q) + c.subrange(q, c.len() as int));
        lemma_singleton((k, v));
    }
}

/// Law (read after write): a notification filed under a path is found there again,
/// whatever the tree held before.
pub proof fn lemma_insert_then_remove(c: Seq<(Seq<char>, NodeView)>, keys: Seq<Seq<char>>, n: NotificationView)
    requires
        cl_wf(c),
    ensures
        remove_view(insert_view(c, keys, n), keys, n.id).1 == Some(n),
        cl_len(remove_view(insert_view(c, keys, n), keys, n.id).0) + 1 == cl_len(insert_view(c, keys, n)),
    decreases keys.len(),
{
    let t = insert_view(c, keys, n);
    lemma_insert_wf(c, keys, n);
    if keys.len() == 0 {
        let k = decimal(n.id as nat);
        lemma_set_child_wf(c, k, NodeView::Item(n));
        lemma_set_remove_len(t, k, NodeView::Item(n));
    } else {
        let k = keys[0];
        let base = match get_child(c, k) {
            Some(NodeView::Group(sub)) => sub,
            Some(NodeView::Item(old)) => set_child(
                Seq::empty(),
                decimal(old.id as nat),
                NodeView::Item(old),
            ),
            None => Seq::empty(),
        };
        if has_key(c, k) {
            lemma_get_child_wf(c, k);
        }
        match get_child(c, k) {
            Some(NodeView::Item(old)) => {
                lemma_set_child_wf(Seq::empty(), decimal(old.id as nat), NodeView::Item(old));
            },
            _ => {},
        }
        let sub = insert_view(base, keys.drop_first(), n);
        lemma_insert_wf(base, keys.drop_first(), n);
        lemma_set_child_wf(c, k, NodeView::Group(sub));
        lemma_insert_then_remove(base, keys.drop_first(), n);
        let (sub2, r) = remove_view(sub, keys.drop_first(), n.id);
        lemma_remove_wf(sub, keys.drop_first(), n.id);
        lemma_set_remove_len(t, k, NodeView::Group(sub2));
    }
}

/// Law: a filed notification is found again by following its path: the path leads
/// through groups all the way, and the group reached holds the notification under its id.
pub proof fn lemma_insert_then_walk(c: Seq<(Seq<char>, NodeView)>, keys: Seq<Seq<char>>, n: NotificationView)
    requires
        cl_wf(c),
    ensures
        walk_view(insert_view(c, keys, n), keys).0 == keys,
        get_child(walk_view(insert_view(c, keys, n), keys).1, decimal(n.id as nat)) == Some(NodeView::Item(n)),
    decreases keys.len(),
{
    if keys.len() == 0 {
        lemma_set_child_wf(c, decimal(n.id as nat), NodeView::Item(n));
    } else {
        let k = keys[0];
        let base = match get_child(c, k) {
            Some(NodeView::Group(sub)) => sub,
            Some(NodeView::Item(old)) => set_child(
                Seq::empty(),
                decimal(old.id as nat),
                NodeView::Item(old),
            ),
            None => Seq::empty(),
        };
        if has_key(c, k) {
            lemma_get_child_wf(c, k);
        }
        match get_child(c, k) {
            Some(NodeView::Item(old)) => {
                lemma_set_child_wf(Seq::empty(), decimal(old.id as nat), NodeView::Item(old));
            },
            _ => {},
        }
        let sub = insert_view(base, keys.drop_first(), n);
        lemma_insert_wf(base, keys.drop_first(), n);
        lemma_set_child_wf(c, k, NodeView::Group(sub));
        lemma_insert_then_walk(base, keys.drop_first(), n);
        assert(seq![k] + keys.drop_first() =~= keys);
    }
}

/// Law: filing a notification adds at most one notification to the count.
pub proof fn lemma_insert_len(c: Seq<(Seq<char>, NodeView)>, keys: Seq<Seq<char>>, n: NotificationView)
    requires
        cl_wf(c),
    ensures
        cl_len(insert_view(c, keys, n)) <= cl_len(c) + 1,
    decreases keys.len(),
{
    if keys.len() == 0 {
        lemma_set_remove_len(c, decimal(n.id as nat), NodeView::Item(n));
    } else {
        let k = keys[0];
        let base = match get_child(c, k) {
            Some(NodeView::Group(sub)) => sub,
            Some(NodeView::Item(old)) => set_child(
                Seq::empty(),
                decimal(old.id as nat),
                NodeView::Item(old),
            ),
            None => Seq::empty(),
        };
        if has_key(c, k) {
            lemma_get_child_wf(c, k);
        }
        match get_child(c, k) {
            Some(NodeView::Item(old)) => {
                lemma_set_child_wf(Seq::empty(), decimal(old.id as nat), NodeView::Item(old));
                lemma_set_remove_len(Seq::empty(), decimal(old.id as nat), NodeView::Item(old));
                assert(cl_len(Seq::<(Seq<char>, NodeView)>::empty()) == 0);
            },
            _ => {},
        }
        lemma_insert_len(base, keys.drop_first(), n);
        let sub = insert_view(base, keys.drop_first(), n);
        lemma_set_remove_len(c, k, NodeView::Group(sub));
    }
}

/// Law: removing a notification leaves one notification fewer; removing nothing
/// never adds any.
pub proof fn lemma_remove_len(c: Seq<(Seq<char>, NodeView)>, keys: Seq<Seq<char>>, id: u32)
    requires
        cl_wf(c),
    ensures
        remove_view(c, keys, id).1 is Some ==> cl_len(remove_view(c, keys, id).0) + 1 == cl_len(c),
        cl_len(remove_view(c, keys, id).0) <= cl_len(c),
    decreases keys.len(),
{
    if keys.len() == 0 {
        let k = decimal(id as nat);
        lemma_set_remove_len(c, k, NodeView::Item(arbitrary()));
    } else {
        let k = keys[0];
        lemma_set_remove_len(c, k, NodeView::Item(arbitrary()));
        match get_child(c, k) {
            Some(NodeView::Group(sub)) => {
                lemma_get_child_wf(c, k);
                lemma_remove_len(sub, keys.drop_first(), id);
                let (sub2, r) = remove_view(sub, keys.drop_first(), id);
                lemma_set_remove_len(c, k, NodeView::Group(sub2));
            },
            _ => {},
        }
    }
}

/// Law: removals of two different notifications do not disturb each other: a
/// notification found along its path is still found there after another one, found
/// along its own path, is removed.
pub proof fn lemma_remove_keeps_other(
    c: Seq<(Seq<char>, NodeView)>,
    p1: Seq<Seq<char>>,
    a: u32,
    p2: Seq<Seq<char>>,
    b: u32,
)
    requires
        cl_wf(c),
        a != b,
        remove_view(c, p1, a).1 matches Some(x) && x.id == a,
        remove_view(c, p2, b).1 matches Some(y) && y.id == b,
    ensures
        remove_view(remove_view(c, p1, a).0, p2, b).1 == remove_view(c, p2, b).1,
    decreases p1.len(),
{
    let c1 = remove_view(c, p1, a).0;
    let y = remove_view(c, p2, b).1.unwrap();
    if p1.len() == 0 {
        let ka = decimal(a as nat);
        lemma_remove_child_wf(c, ka);
        if p2.len() == 0 {
            assert(decimal(b as nat) != ka);
        } else {
            assert(p2[0] != ka);
        }
    } else {
        let k1 = p1[0];
        match get_child(c, k1) {
            Some(NodeView::Group(sub)) => {
                lemma_get_child_wf(c, k1);
                let (sub2, r) = remove_view(sub, p1.drop_first(), a);
                lemma_remove_wf(sub, p1.drop_first(), a);
                lemma_remove_child_wf(c, k1);
                lemma_set_child_wf(c, k1, NodeView::Group(sub2));
                if p2.len() == 0 {
                    assert(decimal(b as nat) != k1);
                } else if p2[0] == k1 {
                    lemma_remove_keeps_other(sub, p1.drop_first(), a, p2.drop_first(), b);
                    assert(sub2.len() != 0);
                }
            },
            _ => {
                lemma_remove_child_wf(c, k1);
                if p2.len() == 0 {
                    assert(decimal(b as nat) != k1);
                } else {
                    assert(p2[0] != k1);
                }
            },
        }
    }
}

/// The ids of a sequence of notifications, counted.
pub open spec fn ids_of(s: Seq<NotificationView>) -> Multiset<u32> {
    s.map_values(|l: NotificationView| l.id).to_multiset()
}

/// The ids of the notifications of a group, counted.
pub open spec fn leaf_ids(c: Seq<(Seq<char>, NodeView)>) -> Multiset<u32> {
    ids_of(cl_leafs(c))
}

/// The empty sequence counts nothing.
pub proof fn lemma_empty_to_multiset()
    ensures
        Seq::<u32>::empty().to_multiset() == Multiset::<u32>::empty(),
{
    vstd::seq_lib::to_multiset_len(Seq::<u32>::empty());
    vstd::multiset::lemma_multiset_empty_len(Seq::<u32>::empty().to_multiset());
}

proof fn lemma_ids_of_concat(a: Seq<NotificationView>, b: Seq<NotificationView>)
    ensures
        ids_of(a + b) == ids_of(a).add(ids_of(b)),
{
    let f = |l: NotificationView| l.id;
    assert((a + b).map_values(f) =~= a.map_values(f) + b.map_values(f));
    vstd::seq_lib::lemma_multiset_commutative(a.map_values(f), b.map_values(f));
}

/// Ids of a group after setting or removing one child.
proof fn lemma_set_remove_ids(c: Seq<(Seq<char>, NodeView)>, k: Seq<char>, v: NodeView)
    requires
        cl_wf(c),
        has_key(c, k),
    ensures
        leaf_ids(set_child(c, k, v)).add(ids_of(node_leafs(get_child(c, k).unwrap()))) == leaf_ids(c).add(
            ids_of(node_leafs(v)),
        ),
        leaf_ids(remove_child(c, k)).add(ids_of(node_leafs(get_child(c, k).unwrap()))) == leaf_ids(c),
{
    broadcast use vstd::multiset::group_multiset_axioms;

    let p = key_pos(c, k);
    lemma_get_child(c, k, p);
    let u = set_child(c, k, v);
    lemma_split_at(c, p);
    lemma_split_at(u, p);
    let a = c.subrange(0, p);
    let b = c.subrange(p + 1, c.len() as int);
    assert(u.subrange(0, p) =~= a);
    assert(u.subrange(p + 1, u.len() as int) =~= b);
    lemma_ids_of_concat(cl_leafs(a) + node_leafs(c[p].1), cl_leafs(b));
    lemma_ids_of_concat(cl_leafs(a), node_leafs(c[p].1));
    lemma_ids_of_concat(cl_leafs(a) + node_leafs(v), cl_leafs(b));
    lemma_ids_of_concat(cl_leafs(a), node_leafs(v));
    assert(leaf_ids(u).add(ids_of(node_leafs(c[p].1))) =~= leaf_ids(c).add(ids_of(node_leafs(v))));
    let r = remove_child(c, k);
    assert(r =~= a + b);
    lemma_concat_len_leafs(a, b);
    lemma_ids_of_concat(cl_leafs(a), cl_leafs(b));
    assert(leaf_ids(r).add(ids_of(node_leafs(c[p].1))) =~= leaf_ids(c));
}

/// Law: removing a notification found along its path takes exactly its id out of the
/// counted ids of the group.
pub proof fn lemma_remove_ids(c: Seq<(Seq<char>, NodeView)>, keys: Seq<Seq<char>>, id: u32)
    requires
        cl_wf(c),
        remove_view(c, keys, id).1 matches Some(x) && x.id == id,
    ensures
        leaf_ids(remove_view(c, keys, id).0).insert(id) == leaf_ids(c),
    decreases keys.len(),
{
    broadcast use vstd::multiset::group_multiset_axioms;

    let x = remove_view(c, keys, id).1.unwrap();
    let one = ids_of(seq![x]);
    assert(seq![x].map_values(|l: NotificationView| l.id) =~= seq![id]);
    assert(one =~= Multiset::<u32>::empty().insert(id)) by {
        broadcast use vstd::seq_lib::to_multiset_build;

        assert(seq![id] =~= Seq::<u32>::empty().push(id));
        lemma_empty_to_multiset();
    }
    if keys.len() == 0 {
        lemma_set_remove_ids(c, decimal(id as nat), NodeView::Item(x));
    } else {
        let k = keys[0];
        match get_child(c, k) {
            Some(NodeView::Group(sub)) => {
                lemma_get_child_wf(c, k);
                lemma_remove_ids(sub, keys.drop_first(), id);
                let (sub2, r) = remove_view(sub, keys.drop_first(), id);
                lemma_set_remove_ids(c, k, NodeView::Group(sub2));
                assert(ids_of(node_leafs(NodeView::Group(sub))) == leaf_ids(sub));
                assert(ids_of(node_leafs(NodeView::Group(sub2))) == leaf_ids(sub2));
                let c2 = remove_view(c, keys, id).0;
                if sub2.len() == 0 {
                    assert(cl_leafs(sub2).map_values(|l: NotificationView| l.id) =~= Seq::<u32>::empty());
                    lemma_empty_to_multiset();
                    assert(c2 == remove_child(c, k));
                    assert(leaf_ids(c2).add(leaf_ids(sub)) == leaf_ids(c));
                    assert(leaf_ids(c2).insert(id) =~= leaf_ids(c));
                } else {
                    assert(c2 == set_child(c, k, NodeView::Group(sub2)));
                    assert(leaf_ids(c2).add(leaf_ids(sub)) == leaf_ids(c).add(leaf_ids(sub2)));
                    assert(leaf_ids(c2).insert(id) =~= leaf_ids(c)) by {
                        assert forall|z: u32| #[trigger] leaf_ids(c2).insert(id).count(z) == leaf_ids(c).count(z) by {
                            assert(leaf_ids(c2).add(leaf_ids(sub)).count(z) == leaf_ids(c).add(leaf_ids(sub2)).count(z));
                        }
                    }
                }
            },
            _ => {
                lemma_set_remove_ids(c, k, NodeView::Item(x));
            },
        }
    }
}

/// Filing notification `id` along `keys` meets no notification on the way and replaces
/// nothing at the end: each key of the path names a group or nothing, and no child of
/// the group reached is keyed by the id.
pub open spec fn files_cleanly(c: Seq<(Seq<char>, NodeView)>, keys: Seq<Seq<char>>, id: u32) -> bool
    decreases keys.len(),
{
    if keys.len() == 0 {
        !has_key(c, decimal(id as nat))
    } else {
        match get_child(c, keys[0]) {
            Some(NodeView::Group(sub)) => files_cleanly(sub, keys.drop_first(), id),
            Some(NodeView::Item(_)) => false,
            None => true,
        }
    }
}

/// Ids of a group after adding a child under a new key.
proof fn lemma_add_child_ids(c: Seq<(Seq<char>, NodeView)>, k: Seq<char>, v: NodeView)
    requires
        cl_wf(c),
        !has_key(c, k),
    ensures
        leaf_ids(set_child(c, k, v)) == leaf_ids(c).add(ids_of(node_leafs(v))),
{
    broadcast use vstd::multiset::group_multiset_axioms;

    let q = first_greater(c, k, 0);
    lemma_first_greater(c, k, 0);
    let a = c.subrange(0, q);
    let b = c.subrange(q, c.len() as int);
    let u = set_child(c, k, v);
    assert(u =~= a + seq![(k, v)] + b);
    lemma_concat_len_leafs(a + seq![(k, v)], b);
    lemma_concat_len_leafs(a, seq![(k, v)]);
    lemma_concat_len_leafs(a, b);
    assert(c =~= a + b);
    lemma_singleton((k, v));
    lemma_ids_of_concat(cl_leafs(a) + node_leafs(v), cl_leafs(b));
    lemma_ids_of_concat(cl_leafs(a), node_leafs(v));
    lemma_ids_of_concat(cl_leafs(a), cl_leafs(b));
    assert(leaf_ids(u) =~= leaf_ids(c).add(ids_of(node_leafs(v))));
}

proof fn lemma_ids_of_single(x: NotificationView)
    ensures
        ids_of(seq![x]) == Multiset::<u32>::empty().insert(x.id),
{
    broadcast use vstd::seq_lib::to_multiset_build;

    assert(seq![x].map_values(|l: NotificationView| l.id) =~= Seq::<u32>::empty().push(x.id));
    lemma_empty_to_multiset();
}

/// Law: filing a notification cleanly adds exactly its id to the counted ids.
pub proof fn lemma_insert_ids(c: Seq<(Seq<char>, NodeView)>, keys: Seq<Seq<char>>, n: NotificationView)
    requires
        cl_wf(c),
        files_cleanly(c, keys, n.id),
    ensures
        leaf_ids(insert_view(c, keys, n)) == leaf_ids(c).insert(n.id),
    decreases keys.len(),
{
    broadcast use vstd::multiset::group_multiset_axioms;

    lemma_ids_of_single(n);
    if keys.len() == 0 {
        lemma_add_child_ids(c, decimal(n.id as nat), NodeView::Item(n));
        assert(leaf_ids(insert_view(c, keys, n)) =~= leaf_ids(c).insert(n.id));
    } else {
        let k = keys[0];
        let t = insert_view(c, keys, n);
        match get_child(c, k) {
            Some(NodeView::Group(sub)) => {
                lemma_get_child_wf(c, k);
                lemma_insert_ids(sub, keys.drop_first(), n);
                let sub2 = insert_view(sub, keys.drop_first(), n);
                lemma_set_remove_ids(c, k, NodeView::Group(sub2));
                assert(ids_of(node_leafs(NodeView::Group(sub))) == leaf_ids(sub));
                assert(ids_of(node_leafs(NodeView::Group(sub2))) == leaf_ids(sub2));
                assert(t == set_child(c, k, NodeView::Group(sub2)));
                assert(leaf_ids(t).add(leaf_ids(sub)) == leaf_ids(c).add(leaf_ids(sub2)));
                assert(leaf_ids(t) =~= leaf_ids(c).insert(n.id)) by {
                    assert forall|z: u32| #[trigger] leaf_ids(t).count(z) == leaf_ids(c).insert(n.id).count(z) by {
                        assert(leaf_ids(t).add(leaf_ids(sub)).count(z) == leaf_ids(c).add(leaf_ids(sub2)).count(z));
                    }
                }
            },
            _ => {
                let e = Seq::<(Seq<char>, NodeView)>::empty();
                assert(cl_wf(e));
                assert(files_cleanly(e, keys.drop_first(), n.id)) by {
                    if keys.drop_first().len() > 0 {
                        assert(!has_key(e, keys.drop_first()[0]));
                    }
                }
                lemma_insert_ids(e, keys.drop_first(), n);
                let sub2 = insert_view(e, keys.drop_first(), n);
                assert(cl_leafs(e).map_values(|l: NotificationView| l.id) =~= Seq::<u32>::empty());
                lemma_empty_to_multiset();
                lemma_add_child_ids(c, k, NodeView::Group(sub2));
                assert(ids_of(node_leafs(NodeView::Group(sub2))) == leaf_ids(sub2));
                assert(leaf_ids(t) =~= leaf_ids(c).insert(n.id));
            },
        }
    }
}

/// Law: filing a notification cleanly does not disturb any other: one found along its
/// path is still found there.
pub proof fn lemma_insert_keeps_other(
    c: Seq<(Seq<char>, NodeView)>,
    keys: Seq<Seq<char>>,
    n: NotificationView,
    path: Seq<Seq<char>>,
    z: u32,
)
    requires
        cl_wf(c),
        files_cleanly(c, keys, n.id),
        remove_view(c, path, z).1 matches Some(y) && y.id == z,
    ensures
        remove_view(insert_view(c, keys, n), path, z).1 == remove_view(c, path, z).1,
    decreases keys.len(),
{
    let t = insert_view(c, keys, n);
    if keys.len() == 0 {
        let kn = decimal(n.id as nat);
        lemma_set_child_wf(c, kn, NodeView::Item(n));
        if path.len() == 0 {
            assert(decimal(z as nat) != kn);
        } else {
            assert(path[0] != kn);
        }
    } else {
        let k = keys[0];
        match get_child(c, k) {
            Some(NodeView::Group(sub)) => {
                lemma_get_child_wf(c, k);
                let sub2 = insert_view(sub, keys.drop_first(), n);
                lemma_insert_wf(sub, keys.drop_first(), n);
                lemma_set_child_wf(c, k, NodeView::Group(sub2));
                if path.len() == 0 {
                    assert(decimal(z as nat) != k);
                } else if path[0] == k {
                    lemma_insert_keeps_other(sub, keys.drop_first(), n, path.drop_first(), z);
                }
            },
            _ => {
                let e = Seq::<(Seq<char>, NodeView)>::empty();
                assert(cl_wf(e));
                let sub2 = insert_view(e, keys.drop_first(), n);
                lemma_insert_wf(e, keys.drop_first(), n);
                lemma_set_child_wf(c, k, NodeView::Group(sub2));
                if path.len() == 0 {
                    assert(decimal(z as nat) != k);
                } else {
                    assert(path[0] != k);
                }
            },
        }
    }
}

/// Law: removing a branch removes exactly the notifications it reports.
pub proof fn lemma_remove_branch_path_len(c: Seq<(Seq<char>, NodeView)>, path: Seq<Seq<char>>)
    requires
        cl_wf(c),
    ensures
        cl_len(remove_branch_path_view(c, path).0) + remove_branch_path_view(c, path).1.len() == cl_len(c),
    decreases path.len(),
{
    if path.len() == 1 {
        lemma_set_remove_len(c, path[0], NodeView::Item(arbitrary()));
        if has_key(c, path[0]) {
            lemma_node_len_leafs(get_child(c, path[0]).unwrap());
        }
    } else if path.len() > 1 {
        match get_child(c, path[0]) {
            Some(NodeView::Group(sub)) => {
                lemma_get_child_wf(c, path[0]);
                lemma_remove_branch_path_len(sub, path.drop_first());
                let (sub2, r) = remove_branch_path_view(sub, path.drop_first());
                lemma_set_remove_len(c, path[0], NodeView::Group(sub2));
            },
            _ => {},
        }
    }
}

/// Law: removing a branch takes exactly the ids of the notifications it reports out of
/// the counted ids of the group.
pub proof fn lemma_remove_branch_path_ids(c: Seq<(Seq<char>, NodeView)>, path: Seq<Seq<char>>)
    requires
        cl_wf(c),
    ensures
        leaf_ids(remove_branch_path_view(c, path).0).add(ids_of(remove_branch_path_view(c, path).1)) == leaf_ids(c),
    decreases path.len(),
{
    broadcast use vstd::multiset::group_multiset_axioms;

    let (t, r) = remove_branch_path_view(c, path);
    assert(Seq::<NotificationView>::empty().map_values(|l: NotificationView| l.id) =~= Seq::<u32>::empty());
    lemma_empty_to_multiset();
    if path.len() == 1 {
        if has_key(c, path[0]) {
            lemma_set_remove_ids(c, path[0], NodeView::Item(arbitrary()));
        }
        assert(leaf_ids(t).add(ids_of(r)) =~= leaf_ids(c));
    } else if path.len() > 1 {
        match get_child(c, path[0]) {
            Some(NodeView::Group(sub)) => {
                lemma_get_child_wf(c, path[0]);
                lemma_remove_branch_path_ids(sub, path.drop_first());
                let (sub2, r2) = remove_branch_path_view(sub, path.drop_first());
                lemma_set_remove_ids(c, path[0], NodeView::Group(sub2));
                assert(ids_of(node_leafs(NodeView::Group(sub))) == leaf_ids(sub));
                assert(ids_of(node_leafs(NodeView::Group(sub2))) == leaf_ids(sub2));
                if sub2.len() == 0 {
                    assert(cl_leafs(sub2).map_values(|l: NotificationView| l.id) =~= Seq::<u32>::empty());
                    assert(leaf_ids(t).add(leaf_ids(sub)) == leaf_ids(c));
                    assert(leaf_ids(t).add(ids_of(r)) =~= leaf_ids(c));
                } else {
                    assert(leaf_ids(t).add(leaf_ids(sub)) == leaf_ids(c).add(leaf_ids(sub2)));
                    assert(leaf_ids(t).add(ids_of(r)) =~= leaf_ids(c)) by {
                        assert forall|z: u32| #[trigger] leaf_ids(t).add(ids_of(r)).count(z) == leaf_ids(c).count(z) by {
                            assert(leaf_ids(t).add(leaf_ids(sub)).count(z) == leaf_ids(c).add(leaf_ids(sub2)).count(z));
                        }
                    }
                }
            },
            _ => {
                assert(leaf_ids(t).add(ids_of(r)) =~= leaf_ids(c));
            },
        }
    } else {
        assert(leaf_ids(t).add(ids_of(r)) =~= leaf_ids(c));
    }
}

/// A notification found along its path is among the notifications of the group.
pub proof fn lemma_found_is_leaf(c: Seq<(Seq<char>, NodeView)>, keys: Seq<Seq<char>>, id: u32)
    requires
        cl_wf(c),
        remove_view(c, keys, id).1 matches Some(x) && x.id == id,
    ensures
        leaf_ids(c).count(id) > 0,
{
    broadcast use vstd::multiset::group_multiset_axioms;

    lemma_remove_ids(c, keys, id);
}

/// Law: removing a branch does not disturb a notification outside it: one found along
/// its path, whose id the branch does not hold, is still found there.
pub proof fn lemma_remove_branch_keeps_other(
    c: Seq<(Seq<char>, NodeView)>,
    path: Seq<Seq<char>>,
    p2: Seq<Seq<char>>,
    z: u32,
)
    requires
        cl_wf(c),
        remove_view(c, p2, z).1 matches Some(y) && y.id == z,
        ids_of(remove_branch_path_view(c, path).1).count(z) == 0,
    ensures
        remove_view(remove_branch_path_view(c, path).0, p2, z).1 == remove_view(c, p2, z).1,
    decreases path.len(),
{
    broadcast use vstd::multiset::group_multiset_axioms;

    let y = remove_view(c, p2, z).1.unwrap();
    if path.len() == 1 {
        let k = path[0];
        if has_key(c, k) {
            lemma_remove_child_wf(c, k);
            let removed = node_leafs(get_child(c, k).unwrap());
            if p2.len() == 0 {
                if decimal(z as nat) == k {
                    lemma_ids_of_single(y);
                    assert(removed == seq![y]);
                }
            } else if p2[0] == k {
                match get_child(c, k) {
                    Some(NodeView::Group(sub)) => {
                        lemma_get_child_wf(c, k);
                        lemma_found_is_leaf(sub, p2.drop_first(), z);
                        assert(ids_of(removed) == leaf_ids(sub));
                    },
                    Some(NodeView::Item(x)) => {
                        lemma_ids_of_single(x);
                        assert(removed == seq![x]);
                    },
                    None => {},
                }
            }
        }
    } else if path.len() > 1 {
        let k = path[0];
        match get_child(c, k) {
            Some(NodeView::Group(sub)) => {
                lemma_get_child_wf(c, k);
                let (sub2, r2) = remove_branch_path_view(sub, path.drop_first());
                lemma_remove_branch_path_wf(sub, path.drop_first());
                lemma_remove_child_wf(c, k);
                lemma_set_child_wf(c, k, NodeView::Group(sub2));
                if p2.len() == 0 {
                    assert(decimal(z as nat) != k);
                } else if p2[0] == k {
                    lemma_remove_branch_keeps_other(sub, path.drop_first(), p2.drop_first(), z);
                    assert(sub2.len() != 0);
                }
            },
            _ => {},
        }
    }
}

/// The notifications of a group, counted.
pub open spec fn leaf_bag(c: Seq<(Seq<char>, NodeView)>) -> Multiset<NotificationView> {
    cl_leafs(c).to_multiset()
}

proof fn lemma_bag_basics(x: NotificationView)
    ensures
        Seq::<NotificationView>::empty().to_multiset() == Multiset::<NotificationView>::empty(),
        seq![x].to_multiset() == Multiset::<NotificationView>::empty().insert(x),
{
    broadcast use vstd::seq_lib::to_multiset_build;

    vstd::seq_lib::to_multiset_len(Seq::<NotificationView>::empty());
    vstd::multiset::lemma_multiset_empty_len(Seq::<NotificationView>::empty().to_multiset());
    assert(seq![x] =~= Seq::<NotificationView>::empty().push(x));
}

/// Notifications of a group after setting or removing one child.
proof fn lemma_set_remove_bag(c: Seq<(Seq<char>, NodeView)>, k: Seq<char>, v: NodeView)
    requires
        cl_wf(c),
        has_key(c, k),
    ensures
        leaf_bag(set_child(c, k, v)).add(node_leafs(get_child(c, k).unwrap()).to_multiset())
            == leaf_bag(c).add(node_leafs(v).to_multiset()),
        leaf_bag(remove_child(c, k)).add(node_leafs(get_child(c, k).unwrap()).to_multiset())
            == leaf_bag(c),
{
    broadcast use vstd::multiset::group_multiset_axioms;
    broadcast use vstd::seq_lib::lemma_multiset_commutative;

    let p = key_pos(c, k);
    lemma_get_child(c, k, p);
    let u = set_child(c, k, v);
    lemma_split_at(c, p);
    lemma_split_at(u, p);
    let a = c.subrange(0, p);
    let b = c.subrange(p + 1, c.len() as int);
    assert(u.subrange(0, p) =~= a);
    assert(u.subrange(p + 1, u.len() as int) =~= b);
    let la = cl_leafs(a);
    let lb = cl_leafs(b);
    assert((la + node_leafs(c[p].1) + lb).to_multiset() == (la + node_leafs(c[p].1)).to_multiset().add(lb.to_multiset()));
    assert((la + node_leafs(v) + lb).to_multiset() == (la + node_leafs(v)).to_multiset().add(lb.to_multiset()));
    assert(leaf_bag(u).add(node_leafs(c[p].1).to_multiset()) =~= leaf_bag(c).add(node_leafs(v).to_multiset()));
    let r = remove_child(c, k);
    assert(r =~= a + b);
    lemma_concat_len_leafs(a, b);
    assert((la + lb).to_multiset() == la.to_multiset().add(lb.to_multiset()));
    assert(leaf_bag(r).add(node_leafs(c[p].1).to_multiset()) =~= leaf_bag(c));
}

/// Notifications of a group after adding a child under a new key.
proof fn lemma_add_child_bag(c: Seq<(Seq<char>, NodeView)>, k: Seq<char>, v: NodeView)
    requires
        !has_key(c, k),
    ensures
        leaf_bag(set_child(c, k, v)) == leaf_bag(c).add(node_leafs(v).to_multiset()),
{
    broadcast use vstd::multiset::group_multiset_axioms;
    broadcast use vstd::seq_lib::lemma_multiset_commutative;

    let q = first_greater(c, k, 0);
    lemma_first_greater(c, k, 0);
    let a = c.subrange(0, q);
    let b = c.subrange(q, c.len() as int);
    let u = set_child(c, k, v);
    assert(u =~= a + seq![(k, v)] + b);
    lemma_concat_len_leafs(a + seq![(k, v)], b);
    lemma_concat_len_leafs(a, seq![(k, v)]);
    lemma_concat_len_leafs(a, b);
    assert(c =~= a + b);
    lemma_singleton((k, v));
    let la = cl_leafs(a);
    let lb = cl_leafs(b);
    assert((la + node_leafs(v) + lb).to_multiset() == (la + node_leafs(v)).to_multiset().add(lb.to_multiset()));
    assert((la + lb).to_multiset() == la.to_multiset().add(lb.to_multiset()));
    assert(leaf_bag(u) =~= leaf_bag(c).add(node_leafs(v).to_multiset()));
}

/// Whether the path `keys` leads through groups to a group holding a group keyed by `id`
/// in decimal (removal then drops that group and reports nothing).
pub open spec fn ends_in_group(c: Seq<(Seq<char>, NodeView)>, keys: Seq<Seq<char>>, id: u32) -> bool
    decreases keys.len(),
{
    if keys.len() == 0 {
        get_child(c, decimal(id as nat)) matches Some(NodeView::Group(_))
    } else {
        match get_child(c, keys[0]) {
            Some(NodeView::Group(sub)) => ends_in_group(sub, keys.drop_first(), id),
            _ => false,
        }
    }
}

/// Law: removing a notification takes exactly it out of the notifications of the group
/// when one is reported; when none is, a tree with no empty group is left as it was,
/// unless the path ends at a group keyed by the id.
pub proof fn lemma_remove_bag(c: Seq<(Seq<char>, NodeView)>, keys: Seq<Seq<char>>, id: u32)
    requires
        cl_wf(c),
    ensures
        remove_view(c, keys, id).1 matches Some(x) ==> leaf_bag(remove_view(c, keys, id).0).insert(x)
            == leaf_bag(c),
        remove_view(c, keys, id).1 is None && no_empty_groups(c) && !ends_in_group(c, keys, id)
            ==> remove_view(c, keys, id).0 == c,
    decreases keys.len(),
{
    broadcast use vstd::multiset::group_multiset_axioms;

    let (t, r) = remove_view(c, keys, id);
    if keys.len() == 0 {
        let k = decimal(id as nat);
        if has_key(c, k) {
            lemma_set_remove_bag(c, k, NodeView::Item(arbitrary()));
            match get_child(c, k) {
                Some(NodeView::Item(x)) => {
                    lemma_bag_basics(x);
                    assert(leaf_bag(t).insert(x) =~= leaf_bag(c));
                },
                _ => {},
            }
        }
    } else {
        let k = keys[0];
        match get_child(c, k) {
            Some(NodeView::Group(sub)) => {
                lemma_get_child_wf(c, k);
                let q = key_pos(c, k);
                lemma_remove_bag(sub, keys.drop_first(), id);
                let (sub2, r2) = remove_view(sub, keys.drop_first(), id);
                lemma_set_remove_bag(c, k, NodeView::Group(sub2));
                assert(node_leafs(NodeView::Group(sub)) == cl_leafs(sub));
                assert(node_leafs(NodeView::Group(sub2)) == cl_leafs(sub2));
                if let Some(x) = r {
                    if sub2.len() == 0 {
                        lemma_bag_basics(x);
                        assert(cl_leafs(sub2) =~= Seq::<NotificationView>::empty());
                        assert(leaf_bag(t).add(leaf_bag(sub)) == leaf_bag(c));
                        assert(leaf_bag(t).insert(x) =~= leaf_bag(c));
                    } else {
                        assert(leaf_bag(t).add(leaf_bag(sub)) == leaf_bag(c).add(leaf_bag(sub2)));
                        assert(leaf_bag(t).insert(x) =~= leaf_bag(c)) by {
                            assert forall|z: NotificationView| #[trigger] leaf_bag(t).insert(x).count(z)
                                == leaf_bag(c).count(z) by {
                                assert(leaf_bag(t).add(leaf_bag(sub)).count(z) == leaf_bag(c).add(
                                    leaf_bag(sub2),
                                ).count(z));
                            }
                        }
                    }
                } else if no_empty_groups(c) && !ends_in_group(c, keys, id) {
                    assert(node_nonempty(c[q].1));
                    assert(sub2 == sub);
                    assert(c[q] == (k, NodeView::Group(sub)));
                    assert(t =~= c);
                }
            },
            Some(NodeView::Item(x)) => {
                if x.id == id {
                    lemma_set_remove_bag(c, k, NodeView::Item(x));
                    lemma_bag_basics(x);
                    assert(leaf_bag(t).insert(x) =~= leaf_bag(c));
                }
            },
            None => {},
        }
    }
}

/// Whether filing notification `id` along `keys` loses nothing: at the end of the path no
/// child is keyed by the id in decimal, also where the path runs through a notification
/// (which becomes a group holding it under its own id).
pub open spec fn files_without_loss(c: Seq<(Seq<char>, NodeView)>, keys: Seq<Seq<char>>, id: u32) -> bool
    decreases keys.len(),
{
    if keys.len() == 0 {
        !has_key(c, decimal(id as nat))
    } else {
        match get_child(c, keys[0]) {
            Some(NodeView::Group(sub)) => files_without_loss(sub, keys.drop_first(), id),
            Some(NodeView::Item(old)) => files_without_loss(
                set_child(Seq::empty(), decimal(old.id as nat), NodeView::Item(old)),
                keys.drop_first(),
                id,
            ),
            None => true,
        }
    }
}

/// Law: filing a notification where nothing is lost adds exactly it to the notifications
/// of the group; a notification met on the path is kept.
pub proof fn lemma_insert_bag(c: Seq<(Seq<char>, NodeView)>, keys: Seq<Seq<char>>, n: NotificationView)
    requires
        cl_wf(c),
        files_without_loss(c, keys, n.id),
    ensures
        leaf_bag(insert_view(c, keys, n)) == leaf_bag(c).insert(n),
    decreases keys.len(),
{
    broadcast use vstd::multiset::group_multiset_axioms;

    lemma_bag_basics(n);
    if keys.len() == 0 {
        lemma_add_child_bag(c, decimal(n.id as nat), NodeView::Item(n));
        assert(leaf_bag(insert_view(c, keys, n)) =~= leaf_bag(c).insert(n));
    } else {
        let k = keys[0];
        let t = insert_view(c, keys, n);
        let e = Seq::<(Seq<char>, NodeView)>::empty();
        match get_child(c, k) {
            Some(NodeView::Group(sub)) => {
                lemma_get_child_wf(c, k);
                lemma_insert_bag(sub, keys.drop_first(), n);
                let sub2 = insert_view(sub, keys.drop_first(), n);
                lemma_set_remove_bag(c, k, NodeView::Group(sub2));
                assert(node_leafs(NodeView::Group(sub)) == cl_leafs(sub));
                assert(node_leafs(NodeView::Group(sub2)) == cl_leafs(sub2));
                assert(t == set_child(c, k, NodeView::Group(sub2)));
                assert(leaf_bag(t).add(leaf_bag(sub)) == leaf_bag(c).add(leaf_bag(sub2)));
                assert(leaf_bag(t) =~= leaf_bag(c).insert(n)) by {
                    assert forall|z: NotificationView| #[trigger] leaf_bag(t).count(z) == leaf_bag(c).insert(
                        n,
                    ).count(z) by {
                        assert(leaf_bag(t).add(leaf_bag(sub)).count(z) == leaf_bag(c).add(leaf_bag(sub2)).count(z));
                    }
                }
            },
            Some(NodeView::Item(old)) => {
                let base = set_child(e, decimal(old.id as nat), NodeView::Item(old));
                assert(cl_wf(e));
                assert(cl_leafs(e) =~= Seq::<NotificationView>::empty());
                lemma_set_child_wf(e, decimal(old.id as nat), NodeView::Item(old));
                lemma_add_child_bag(e, decimal(old.id as nat), NodeView::Item(old));
                lemma_bag_basics(old);
                lemma_insert_bag(base, keys.drop_first(), n);
                let sub2 = insert_view(base, keys.drop_first(), n);
                lemma_set_remove_bag(c, k, NodeView::Group(sub2));
                assert(node_leafs(NodeView::Group(sub2)) == cl_leafs(sub2));
                assert(leaf_bag(base) =~= Multiset::<NotificationView>::empty().insert(old));
                assert(leaf_bag(t).add(seq![old].to_multiset()) == leaf_bag(c).add(leaf_bag(sub2)));
                assert(leaf_bag(t) =~= leaf_bag(c).insert(n)) by {
                    assert forall|z: NotificationView| #[trigger] leaf_bag(t).count(z) == leaf_bag(c).insert(
                        n,
                    ).count(z) by {
                        assert(leaf_bag(t).add(seq![old].to_multiset()).count(z) == leaf_bag(c).add(
                            leaf_bag(sub2),
                        ).count(z));
                    }
                }
            },
            None => {
                assert(cl_wf(e));
                assert(files_without_loss(e, keys.drop_first(), n.id)) by {
                    if keys.drop_first().len() > 0 {
                        assert(!has_key(e, keys.drop_first()[0]));
                    }
                }
                lemma_insert_bag(e, keys.drop_first(), n);
                let sub2 = insert_view(e, keys.drop_first(), n);
                assert(cl_leafs(e) =~= Seq::<NotificationView>::empty());
                lemma_add_child_bag(c, k, NodeView::Group(sub2));
                assert(node_leafs(NodeView::Group(sub2)) == cl_leafs(sub2));
                assert(leaf_bag(t) =~= leaf_bag(c).insert(n));
            },
        }
    }
}

/// Law: removing a branch takes exactly the notifications it reports out of the
/// notifications of the group.
pub proof fn lemma_remove_branch_path_bag(c: Seq<(Seq<char>, NodeView)>, path: Seq<Seq<char>>)
    requires
        cl_wf(c),
    ensures
        leaf_bag(remove_branch_path_view(c, path).0).add(remove_branch_path_view(c, path).1.to_multiset())
            == leaf_bag(c),
    decreases path.len(),
{
    broadcast use vstd::multiset::group_multiset_axioms;

    let (t, r) = remove_branch_path_view(c, path);
    lemma_bag_basics(arbitrary());
    if path.len() == 1 {
        if has_key(c, path[0]) {
            lemma_set_remove_bag(c, path[0], NodeView::Item(arbitrary()));
        }
        assert(leaf_bag(t).add(r.to_multiset()) =~= leaf_bag(c));
    } else if path.len() > 1 {
        match get_child(c, path[0]) {
            Some(NodeView::Group(sub)) => {
                lemma_get_child_wf(c, path[0]);
                lemma_remove_branch_path_bag(sub, path.drop_first());
                let (sub2, r2) = remove_branch_path_view(sub, path.drop_first());
                lemma_set_remove_bag(c, path[0], NodeView::Group(sub2));
                assert(node_leafs(NodeView::Group(sub)) == cl_leafs(sub));
                assert(node_leafs(NodeView::Group(sub2)) == cl_leafs(sub2));
                if sub2.len() == 0 {
                    assert(cl_leafs(sub2) =~= Seq::<NotificationView>::empty());
                    assert(leaf_bag(t).add(leaf_bag(sub)) == leaf_bag(c));
                    assert(leaf_bag(t).add(r.to_multiset()) =~= leaf_bag(c));
                } else {
                    assert(leaf_bag(t).add(leaf_bag(sub)) == leaf_bag(c).add(leaf_bag(sub2)));
                    assert(leaf_bag(t).add(r.to_multiset()) =~= leaf_bag(c)) by {
                        assert forall|z: NotificationView| #[trigger] leaf_bag(t).add(r.to_multiset()).count(z)
                            == leaf_bag(c).count(z) by {
                            assert(leaf_bag(t).add(leaf_bag(sub)).count(z) == leaf_bag(c).add(leaf_bag(sub2)).count(
                                z,
                            ));
                        }
                    }
                }
            },
            _ => {
                assert(leaf_bag(t).add(r.to_multiset()) =~= leaf_bag(c));
            },
        }
    } else {
        assert(leaf_bag(t).add(r.to_multiset()) =~= leaf_bag(c));
    }
}

/// What removing notification `id` along `keys` finds, read off the walk along `keys`:
/// where the walk goes all the way, the child of the group reached keyed by the id in
/// decimal, if it is a notification; where it stops early, the child under the next key,
/// if it is a notification with that id.
pub open spec fn found_along(c: Seq<(Seq<char>, NodeView)>, keys: Seq<Seq<char>>, id: u32) -> Option<
    NotificationView,
> {
    let (p, d) = walk_view(c, keys);
    if p.len() == keys.len() {
        match get_child(d, decimal(id as nat)) {
            Some(NodeView::Item(x)) => Some(x),
            _ => None,
        }
    } else {
        match get_child(d, keys[p.len() as int]) {
            Some(NodeView::Item(x)) => if x.id == id {
                Some(x)
            } else {
                None
            },
            _ => None,
        }
    }
}

/// The keys followed by a walk are the first keys of the context.
pub proof fn lemma_walk_prefix(c: Seq<(Seq<char>, NodeView)>, ctx: Seq<Seq<char>>)
    ensures
        walk_view(c, ctx).0.len() <= ctx.len(),
        walk_view(c, ctx).0 == ctx.subrange(0, walk_view(c, ctx).0.len() as int),
    decreases ctx.len(),
{
    if ctx.len() > 0 {
        match get_child(c, ctx[0]) {
            Some(NodeView::Group(sub)) => {
                lemma_walk_prefix(sub, ctx.drop_first());
                let p = walk_view(sub, ctx.drop_first()).0;
                assert(seq![ctx[0]] + p =~= ctx.subrange(0, p.len() + 1 as int));
            },
            _ => {},
        }
    }
}

/// Law: removal reports exactly the notification found along the walk.
pub proof fn lemma_remove_finds(c: Seq<(Seq<char>, NodeView)>, keys: Seq<Seq<char>>, id: u32)
    ensures
        remove_view(c, keys, id).1 == found_along(c, keys, id),
    decreases keys.len(),
{
    if keys.len() > 0 {
        match get_child(c, keys[0]) {
            Some(NodeView::Group(sub)) => {
                lemma_remove_finds(sub, keys.drop_first(), id);
                lemma_walk_prefix(sub, keys.drop_first());
                let (p, d) = walk_view(sub, keys.drop_first());
                if p.len() < keys.drop_first().len() {
                    assert(keys[p.len() + 1 as int] == keys.drop_first()[p.len() as int]);
                }
            },
            _ => {},
        }
    } else {
        assert(walk_view(c, keys).0.len() == 0);
    }
}

proof fn lemma_set_child_twice(c: Seq<(Seq<char>, NodeView)>, k: Seq<char>, v1: NodeView, v2: NodeView)
    requires
        keys_distinct(c),
        has_key(c, k),
    ensures
        set_child(set_child(c, k, v1), k, v2) == set_child(c, k, v2),
        set_child(c, k, get_child(c, k).unwrap()) == c,
{
    let p = key_pos(c, k);
    lemma_get_child(c, k, p);
    let t1 = set_child(c, k, v1);
    assert forall|i: int, j: int| 0 <= i < j < t1.len() implies t1[i].0 != t1[j].0 by {
        assert(c[i].0 != c[j].0);
    }
    lemma_get_child(t1, k, p);
    assert(set_child(t1, k, v2) =~= set_child(c, k, v2));
    assert(c.update(p, (k, c[p].1)) =~= c);
}

proof fn lemma_remove_added(c: Seq<(Seq<char>, NodeView)>, k: Seq<char>, v: NodeView)
    requires
        cl_wf(c),
        node_wf(v),
        !has_key(c, k),
    ensures
        remove_child(set_child(c, k, v), k) == c,
{
    let q = first_greater(c, k, 0);
    lemma_first_greater(c, k, 0);
    let t = set_child(c, k, v);
    lemma_set_child_wf(c, k, v);
    assert(t[q].0 == k);
    lemma_get_child(t, k, q);
    assert(t.remove(q) =~= c);
}

/// Law: filing a notification cleanly and then removing it along the same path gives
/// back the tree as it was, when no group of it is empty: the groups the filing created
/// are pruned again.
pub proof fn lemma_insert_remove_round_trip(c: Seq<(Seq<char>, NodeView)>, keys: Seq<Seq<char>>, n: NotificationView)
    requires
        cl_wf(c),
        no_empty_groups(c),
        files_cleanly(c, keys, n.id),
    ensures
        remove_view(insert_view(c, keys, n), keys, n.id).0 == c,
    decreases keys.len(),
{
    if keys.len() == 0 {
        let k = decimal(n.id as nat);
        lemma_set_child_wf(c, k, NodeView::Item(n));
        lemma_remove_added(c, k, NodeView::Item(n));
    } else {
        let k = keys[0];
        let e = Seq::<(Seq<char>, NodeView)>::empty();
        match get_child(c, k) {
            Some(NodeView::Group(sub)) => {
                lemma_get_child_wf(c, k);
                let q = key_pos(c, k);
                assert(node_nonempty(c[q].1));
                lemma_insert_remove_round_trip(sub, keys.drop_first(), n);
                let sub2 = insert_view(sub, keys.drop_first(), n);
                lemma_insert_wf(sub, keys.drop_first(), n);
                lemma_set_child_wf(c, k, NodeView::Group(sub2));
                lemma_set_child_twice(c, k, NodeView::Group(sub2), NodeView::Group(sub));
            },
            None => {
                assert(cl_wf(e));
                assert(no_empty_groups(e));
                assert(files_cleanly(e, keys.drop_first(), n.id)) by {
                    if keys.drop_first().len() > 0 {
                        assert(!has_key(e, keys.drop_first()[0]));
                    }
                }
                lemma_insert_remove_round_trip(e, keys.drop_first(), n);
                let sub2 = insert_view(e, keys.drop_first(), n);
                lemma_insert_wf(e, keys.drop_first(), n);
                lemma_set_child_wf(c, k, NodeView::Group(sub2));
                lemma_remove_added(c, k, NodeView::Group(sub2));
            },
            Some(NodeView::Item(_)) => {},
        }
    }
}

/// Law: a context is a path of groups exactly when following it through groups goes
/// all the way; the empty context is one, and so is every prefix of one.
pub proof fn lemma_has_context_walk(c: Seq<(Seq<char>, NodeView)>, ctx: Seq<Seq<char>>, i: int)
    requires
        0 <= i <= ctx.len(),
    ensures
        has_context_view(c, ctx) <==> walk_view(c, ctx).0 == ctx,
        has_context_view(c, Seq::empty()),
        has_context_view(c, ctx) ==> has_context_view(c, ctx.subrange(0, i)),
    decreases ctx.len(),
{
    if ctx.len() > 0 {
        match get_child(c, ctx[0]) {
            Some(NodeView::Group(sub)) => {
                if i > 0 {
                    lemma_has_context_walk(sub, ctx.drop_first(), i - 1);
                    assert(ctx.subrange(0, i).drop_first() =~= ctx.drop_first().subrange(0, i - 1));
                } else {
                    lemma_has_context_walk(sub, ctx.drop_first(), 0);
                }
                let p = walk_view(sub, ctx.drop_first()).0;
                if p =~= ctx.drop_first() {
                    assert(seq![ctx[0]] + p =~= ctx);
                }
                if seq![ctx[0]] + p =~= ctx {
                    assert((seq![ctx[0]] + p).drop_first() =~= p);
                    assert(p =~= ctx.drop_first());
                }
            },
            _ => {
                assert(walk_view(c, ctx).0.len() == 0);
            },
        }
    } else {
        assert(ctx =~= Seq::<Seq<char>>::empty());
    }
}

/// No group of the tree, at any depth, is empty.
pub open spec fn no_empty_groups(c: Seq<(Seq<char>, NodeView)>) -> bool
    decreases c, 1int,
{
    forall|i: int| 0 <= i < c.len() ==> node_nonempty(#[trigger] c[i].1)
}

pub open spec fn node_nonempty(n: NodeView) -> bool
    decreases n, 0int,
{
    match n {
        NodeView::Group(c) => c.len() > 0 && no_empty_groups(c),
        NodeView::Item(_) => true,
    }
}

proof fn lemma_set_child_nonempty(c: Seq<(Seq<char>, NodeView)>, k: Seq<char>, v: NodeView)
    requires
        cl_wf(c),
        node_wf(v),
        no_empty_groups(c),
        node_nonempty(v),
    ensures
        no_empty_groups(set_child(c, k, v)),
        no_empty_groups(remove_child(c, k)),
{
    let u = set_child(c, k, v);
    lemma_set_child_wf(c, k, v);
    assert forall|i: int| 0 <= i < u.len() implies node_nonempty(#[trigger] u[i].1) by {
        lemma_get_child(u, u[i].0, i);
        if u[i].0 != k {
            assert(get_child(c, u[i].0) == Some(u[i].1));
            let q = key_pos(c, u[i].0);
            assert(node_nonempty(c[q].1));
        }
    }
    let r = remove_child(c, k);
    if has_key(c, k) {
        let p = key_pos(c, k);
        assert forall|i: int| 0 <= i < r.len() implies node_nonempty(#[trigger] r[i].1) by {
            let i2 = if i < p { i } else { i + 1 };
            assert(r[i] == c[i2]);
        }
    }
}

/// Law: a tree with no empty group holds no notification exactly when it has no child.
pub proof fn lemma_no_empty_len(c: Seq<(Seq<char>, NodeView)>)
    requires
        no_empty_groups(c),
    ensures
        (cl_len(c) == 0) <==> (c.len() == 0),
    decreases c, 1int,
{
    if c.len() > 0 {
        lemma_child_len_le(c, c.len() - 1);
        match c.last().1 {
            NodeView::Group(sub) => {
                assert(node_nonempty(c[c.len() - 1].1));
                lemma_no_empty_len(sub);
            },
            NodeView::Item(_) => {},
        }
    }
}

/// Law: filing a notification keeps every group non-empty.
pub proof fn lemma_insert_nonempty(c: Seq<(Seq<char>, NodeView)>, keys: Seq<Seq<char>>, n: NotificationView)
    requires
        cl_wf(c),
        no_empty_groups(c),
    ensures
        no_empty_groups(insert_view(c, keys, n)),
    decreases keys.len(),
{
    if keys.len() == 0 {
        lemma_set_child_nonempty(c, decimal(n.id as nat), NodeView::Item(n));
    } else {
        let k = keys[0];
        let base = match get_child(c, k) {
            Some(NodeView::Group(sub)) => sub,
            Some(NodeView::Item(old)) => set_child(
                Seq::empty(),
                decimal(old.id as nat),
                NodeView::Item(old),
            ),
            None => Seq::empty(),
        };
        if has_key(c, k) {
            lemma_get_child_wf(c, k);
            let q = key_pos(c, k);
            assert(node_nonempty(c[q].1));
        }
        match get_child(c, k) {
            Some(NodeView::Item(old)) => {
                lemma_set_child_nonempty(Seq::empty(), decimal(old.id as nat), NodeView::Item(old));
                lemma_set_child_wf(Seq::empty(), decimal(old.id as nat), NodeView::Item(old));
            },
            _ => {},
        }
        lemma_insert_nonempty(base, keys.drop_first(), n);
        lemma_insert_wf(base, keys.drop_first(), n);
        let sub = insert_view(base, keys.drop_first(), n);
        lemma_insert_then_walk(base, keys.drop_first(), n);
        if sub.len() == 0 {
            lemma_walk_empty(sub, keys.drop_first());
        }
        lemma_set_child_nonempty(c, k, NodeView::Group(sub));
    }
}

proof fn lemma_walk_empty(c: Seq<(Seq<char>, NodeView)>, ctx: Seq<Seq<char>>)
    requires
        c.len() == 0,
    ensures
        walk_view(c, ctx).1.len() == 0,
{
    if ctx.len() > 0 {
        assert(!has_key(c, ctx[0]));
    }
}

/// Law: removing a notification keeps every group non-empty (groups it empties go).
pub proof fn lemma_remove_nonempty(c: Seq<(Seq<char>, NodeView)>, keys: Seq<Seq<char>>, id: u32)
    requires
        cl_wf(c),
        no_empty_groups(c),
    ensures
        no_empty_groups(remove_view(c, keys, id).0),
    decreases keys.len(),
{
    if keys.len() == 0 {
        lemma_set_child_nonempty(c, decimal(id as nat), NodeView::Item(arbitrary()));
    } else {
        let k = keys[0];
        lemma_set_child_nonempty(c, k, NodeView::Item(arbitrary()));
        match get_child(c, k) {
            Some(NodeView::Group(sub)) => {
                lemma_get_child_wf(c, k);
                let q = key_pos(c, k);
                assert(node_nonempty(c[q].1));
                lemma_remove_nonempty(sub, keys.drop_first(), id);
                lemma_remove_wf(sub, keys.drop_first(), id);
                let (sub2, r) = remove_view(sub, keys.drop_first(), id);
                if sub2.len() > 0 {
                    lemma_set_child_nonempty(c, k, NodeView::Group(sub2));
                }
            },
            _ => {},
        }
    }
}

/// Law: removing a branch keeps every group non-empty (groups it empties go).
pub proof fn lemma_remove_branch_path_nonempty(c: Seq<(Seq<char>, NodeView)>, path: Seq<Seq<char>>)
    requires
        cl_wf(c),
        no_empty_groups(c),
    ensures
        no_empty_groups(remove_branch_path_view(c, path).0),
    decreases path.len(),
{
    if path.len() == 1 {
        lemma_set_child_nonempty(c, path[0], NodeView::Item(arbitrary()));
    } else if path.len() > 1 {
        let k = path[0];
        lemma_set_child_nonempty(c, k, NodeView::Item(arbitrary()));
        match get_child(c, k) {
            Some(NodeView::Group(sub)) => {
                lemma_get_child_wf(c, k);
                let q = key_pos(c, k);
                assert(node_nonempty(c[q].1));
                lemma_remove_branch_path_nonempty(sub, path.drop_first());
                lemma_remove_branch_path_wf(sub, path.drop_first());
                let (sub2, r) = remove_branch_path_view(sub, path.drop_first());
                if sub2.len() > 0 {
                    lemma_set_child_nonempty(c, k, NodeView::Group(sub2));
                }
            },
            _ => {},
        }
    }
}

// ---------------------------------------------------------------------------
// Key order and leaf keys
// ---------------------------------------------------------------------------

pub proof fn lemma_seq_lt_irreflexive(a: Seq<char>)
    ensures
        !seq_lt(a, a),
    decreases a.len(),
{
    if a.len() > 0 {
        lemma_seq_lt_irreflexive(a.drop_first());
    }
}

pub proof fn lemma_seq_lt_transitive(a: Seq<char>, b: Seq<char>, c: Seq<char>)
    requires
        seq_lt(a, b),
        seq_lt(b, c),
    ensures
        seq_lt(a, c),
    decreases a.len(),
{
    if a.len() > 0 && b.len() > 0 && c.len() > 0 && a[0] == b[0] && b[0] == c[0] {
        lemma_seq_lt_transitive(a.drop_first(), b.drop_first(), c.drop_first());
    }
}

pub proof fn lemma_seq_lt_total(a: Seq<char>, b: Seq<char>)
    requires
        a != b,
    ensures
        seq_lt(a, b) || seq_lt(b, a),
    decreases a.len(),
{
    if a.len() == 0 {
        assert(b.len() > 0) by {
            if b.len() == 0 {
                assert(a =~= b);
            }
        }
    } else if b.len() > 0 && a[0] == b[0] {
        assert(a.drop_first() != b.drop_first()) by {
            if a.drop_first() =~= b.drop_first() {
                assert(a =~= b) by {
                    assert forall|i: int| 0 <= i < a.len() implies a[i] == b[i] by {
                        if i > 0 {
                            assert(a[i] == a.drop_first()[i - 1]);
                            assert(b[i] == b.drop_first()[i - 1]);
                        }
                    }
                }
            }
        }
        lemma_seq_lt_total(a.drop_first(), b.drop_first());
    }
}

/// In every group keys increase, and each notification is keyed by its id in decimal.
pub open spec fn cl_ordered(c: Seq<(Seq<char>, NodeView)>) -> bool
    decreases c, 1int,
{
    &&& forall|i: int, j: int| 0 <= i < j < c.len() ==> seq_lt(#[trigger] c[i].0, #[trigger] c[j].0)
    &&& forall|i: int| 0 <= i < c.len() ==> node_ordered(c[i].0, #[trigger] c[i].1)
}

pub open spec fn node_ordered(k: Seq<char>, n: NodeView) -> bool
    decreases n, 0int,
{
    match n {
        NodeView::Group(c) => cl_ordered(c),
        NodeView::Item(x) => k == decimal(x.id as nat),
    }
}

/// What every tree built by the operations of `NotificationCluster` satisfies: no key
/// twice in a group (`cl_wf`); in every group keys in increasing order, and every
/// notification stored under its id in decimal (`cl_ordered`, see
/// `lemma_leaf_keyed_by_id`); and no empty group below the root (`no_empty_groups`).
pub open spec fn tree_inv(c: Seq<(Seq<char>, NodeView)>) -> bool {
    cl_wf(c) && cl_ordered(c) && no_empty_groups(c)
}

proof fn lemma_first_greater_props(c: Seq<(Seq<char>, NodeView)>, k: Seq<char>, j: int)
    requires
        0 <= j <= c.len(),
    ensures
        forall|i: int| j <= i < first_greater(c, k, j) ==> !seq_lt(k, #[trigger] c[i].0),
        first_greater(c, k, j) < c.len() ==> seq_lt(k, c[first_greater(c, k, j)].0),
    decreases c.len() - j,
{
    if j < c.len() && !seq_lt(k, c[j].0) {
        lemma_first_greater_props(c, k, j + 1);
    }
}

proof fn lemma_set_child_ordered(c: Seq<(Seq<char>, NodeView)>, k: Seq<char>, v: NodeView)
    requires
        cl_wf(c),
        cl_ordered(c),
        node_ordered(k, v),
    ensures
        cl_ordered(set_child(c, k, v)),
        cl_ordered(remove_child(c, k)),
{
    let u = set_child(c, k, v);
    if has_key(c, k) {
        let p = key_pos(c, k);
        lemma_get_child(c, k, p);
        assert forall|i: int, j: int| 0 <= i < j < u.len() implies seq_lt(#[trigger] u[i].0, #[trigger] u[j].0) by {
            assert(seq_lt(c[i].0, c[j].0));
        }
        assert forall|i: int| 0 <= i < u.len() implies node_ordered(u[i].0, #[trigger] u[i].1) by {
            if i != p {
                assert(u[i] == c[i]);
            }
        }
        let r = remove_child(c, k);
        assert forall|i: int, j: int| 0 <= i < j < r.len() implies seq_lt(#[trigger] r[i].0, #[trigger] r[j].0) by {
            let i2 = if i < p { i } else { i + 1 };
            let j2 = if j < p { j } else { j + 1 };
            assert(r[i] == c[i2] && r[j] == c[j2]);
            assert(seq_lt(c[i2].0, c[j2].0));
        }
        assert forall|i: int| 0 <= i < r.len() implies node_ordered(r[i].0, #[trigger] r[i].1) by {
            let i2 = if i < p { i } else { i + 1 };
            assert(r[i] == c[i2]);
        }
    } else {
        let q = first_greater(c, k, 0);
        lemma_first_greater(c, k, 0);
        lemma_first_greater_props(c, k, 0);
        assert forall|i: int| 0 <= i < q implies seq_lt(#[trigger] c[i].0, k) by {
            assert(!seq_lt(k, c[i].0));
            assert(c[i].0 != k);
            lemma_seq_lt_total(c[i].0, k);
        }
        assert forall|j: int| q <= j < c.len() implies seq_lt(k, #[trigger] c[j].0) by {
            if j > q {
                assert(seq_lt(c[q].0, c[j].0));
                lemma_seq_lt_transitive(k, c[q].0, c[j].0);
            }
        }
        assert forall|i: int, j: int| 0 <= i < j < u.len() implies seq_lt(#[trigger] u[i].0, #[trigger] u[j].0) by {
            if i < q && j < q {
                assert(seq_lt(c[i].0, c[j].0));
            } else if i < q && j == q {
                assert(seq_lt(c[i].0, k));
            } else if i < q {
                assert(u[j] == c[j - 1]);
                assert(seq_lt(c[i].0, c[j - 1].0));
            } else if i == q {
                assert(u[j] == c[j - 1]);
                assert(seq_lt(k, c[j - 1].0));
            } else {
                assert(u[i] == c[i - 1] && u[j] == c[j - 1]);
                assert(seq_lt(c[i - 1].0, c[j - 1].0));
            }
        }
        assert forall|i: int| 0 <= i < u.len() implies node_ordered(u[i].0, #[trigger] u[i].1) by {
            if i < q {
                assert(u[i] == c[i]);
            } else if i > q {
                assert(u[i] == c[i - 1]);
            }
        }
    }
}

/// Law: filing a notification keeps keys in order and notifications keyed by their ids.
pub proof fn lemma_insert_ordered(c: Seq<(Seq<char>, NodeView)>, keys: Seq<Seq<char>>, n: NotificationView)
    requires
        cl_wf(c),
        cl_ordered(c),
    ensures
        cl_ordered(insert_view(c, keys, n)),
    decreases keys.len(),
{
    if keys.len() == 0 {
        lemma_set_child_ordered(c, decimal(n.id as nat), NodeView::Item(n));
    } else {
        let k = keys[0];
        let e = Seq::<(Seq<char>, NodeView)>::empty();
        let base = match get_child(c, k) {
            Some(NodeView::Group(sub)) => sub,
            Some(NodeView::Item(old)) => set_child(e, decimal(old.id as nat), NodeView::Item(old)),
            None => e,
        };
        if has_key(c, k) {
            lemma_get_child_wf(c, k);
            let q = key_pos(c, k);
            assert(node_ordered(c[q].0, c[q].1));
        }
        match get_child(c, k) {
            Some(NodeView::Item(old)) => {
                lemma_set_child_ordered(e, decimal(old.id as nat), NodeView::Item(old));
                lemma_set_child_wf(e, decimal(old.id as nat), NodeView::Item(old));
            },
            _ => {},
        }
        lemma_insert_ordered(base, keys.drop_first(), n);
        lemma_set_child_ordered(c, k, NodeView::Group(insert_view(base, keys.drop_first(), n)));
    }
}

/// Law: removing a notification keeps keys in order and notifications keyed by their ids.
pub proof fn lemma_remove_ordered(c: Seq<(Seq<char>, NodeView)>, keys: Seq<Seq<char>>, id: u32)
    requires
        cl_wf(c),
        cl_ordered(c),
    ensures
        cl_ordered(remove_view(c, keys, id).0),
    decreases keys.len(),
{
    if keys.len() == 0 {
        lemma_set_child_ordered(c, decimal(id as nat), NodeView::Group(Seq::empty()));
    } else {
        let k = keys[0];
        lemma_set_child_ordered(c, k, NodeView::Group(Seq::empty()));
        match get_child(c, k) {
            Some(NodeView::Group(sub)) => {
                lemma_get_child_wf(c, k);
                let q = key_pos(c, k);
                assert(node_ordered(c[q].0, c[q].1));
                lemma_remove_ordered(sub, keys.drop_first(), id);
                let (sub2, r) = remove_view(sub, keys.drop_first(), id);
                lemma_set_child_ordered(c, k, NodeView::Group(sub2));
            },
            _ => {},
        }
    }
}

/// Law: removing a branch keeps keys in order and notifications keyed by their ids.
pub proof fn lemma_remove_branch_path_ordered(c: Seq<(Seq<char>, NodeView)>, path: Seq<Seq<char>>)
    requires
        cl_wf(c),
        cl_ordered(c),
    ensures
        cl_ordered(remove_branch_path_view(c, path).0),
    decreases path.len(),
{
    if path.len() >= 1 {
        let k = path[0];
        lemma_set_child_ordered(c, k, NodeView::Group(Seq::empty()));
        if path.len() > 1 {
            match get_child(c, k) {
                Some(NodeView::Group(sub)) => {
                    lemma_get_child_wf(c, k);
                    let q = key_pos(c, k);
                    assert(node_ordered(c[q].0, c[q].1));
                    lemma_remove_branch_path_ordered(sub, path.drop_first());
                    let (sub2, r) = remove_branch_path_view(sub, path.drop_first());
                    lemma_set_child_ordered(c, k, NodeView::Group(sub2));
                },
                _ => {},
            }
        }
    }
}

/// Law: every operation keeps the tree invariant.
pub proof fn lemma_tree_inv_kept(c: Seq<(Seq<char>, NodeView)>, keys: Seq<Seq<char>>, n: NotificationView, id: u32)
    requires
        tree_inv(c),
    ensures
        tree_inv(insert_view(c, keys, n)),
        tree_inv(remove_view(c, keys, id).0),
        tree_inv(remove_branch_path_view(c, keys).0),
{
    lemma_insert_wf(c, keys, n);
    lemma_insert_ordered(c, keys, n);
    lemma_insert_nonempty(c, keys, n);
    lemma_remove_wf(c, keys, id);
    lemma_remove_ordered(c, keys, id);
    lemma_remove_nonempty(c, keys, id);
    lemma_remove_branch_path_wf(c, keys);
    lemma_remove_branch_path_ordered(c, keys);
    lemma_remove_branch_path_nonempty(c, keys);
}

/// No group anywhere in the tree is keyed `k`.
pub open spec fn no_group_keyed(c: Seq<(Seq<char>, NodeView)>, k: Seq<char>) -> bool
    decreases c, 1int,
{
    forall|i: int| 0 <= i < c.len() ==> node_not_group_keyed(c[i].0, #[trigger] c[i].1, k)
}

pub open spec fn node_not_group_keyed(key: Seq<char>, n: NodeView, k: Seq<char>) -> bool
    decreases n, 0int,
{
    match n {
        NodeView::Group(sub) => key != k && no_group_keyed(sub, k),
        NodeView::Item(_) => true,
    }
}

/// Following `keys` from the root meets no notification.
pub open spec fn path_meets_no_leaf(c: Seq<(Seq<char>, NodeView)>, keys: Seq<Seq<char>>) -> bool
    decreases keys.len(),
{
    if keys.len() == 0 {
        true
    } else {
        match get_child(c, keys[0]) {
            Some(NodeView::Group(sub)) => path_meets_no_leaf(sub, keys.drop_first()),
            Some(NodeView::Item(_)) => false,
            None => true,
        }
    }
}

/// Law: a group of a tree built by the operations is itself such a tree; it holds no
/// more notifications with a given id, and no more groups keyed by a given id, than the
/// whole tree.
pub proof fn lemma_child_group(c: Seq<(Seq<char>, NodeView)>, k: Seq<char>, id: u32)
    requires
        tree_inv(c),
        get_child(c, k) matches Some(NodeView::Group(_)),
    ensures
        get_child(c, k) matches Some(NodeView::Group(sub)) && tree_inv(sub) && leaf_ids(sub).count(id)
            <= leaf_ids(c).count(id) && (no_group_keyed(c, decimal(id as nat)) ==> no_group_keyed(
            sub,
            decimal(id as nat),
        )),
{
    broadcast use vstd::multiset::group_multiset_axioms;

    let q = key_pos(c, k);
    lemma_get_child_wf(c, k);
    assert(node_ordered(c[q].0, c[q].1));
    assert(node_nonempty(c[q].1));
    assert(node_not_group_keyed(c[q].0, c[q].1, decimal(id as nat)) || !no_group_keyed(c, decimal(id as nat)));
    lemma_set_remove_ids(c, k, c[q].1);
}

/// A notification in a child of the tree is counted in the tree.
proof fn lemma_child_item(c: Seq<(Seq<char>, NodeView)>, k: Seq<char>)
    requires
        cl_wf(c),
        get_child(c, k) matches Some(NodeView::Item(_)),
    ensures
        get_child(c, k) matches Some(NodeView::Item(x)) && leaf_ids(c).count(x.id) > 0,
{
    broadcast use vstd::multiset::group_multiset_axioms;

    let x = get_child(c, k).unwrap()->Item_0;
    lemma_set_remove_ids(c, k, NodeView::Item(x));
    lemma_ids_of_single(x);
}

/// A group holding only notification `old`, keyed by its id.
proof fn lemma_single_leaf_group(old: NotificationView, id: u32)
    requires
        old.id != id,
    ensures
        tree_inv(set_child(Seq::empty(), decimal(old.id as nat), NodeView::Item(old))),
        leaf_ids(set_child(Seq::empty(), decimal(old.id as nat), NodeView::Item(old))).count(id) == 0,
        no_group_keyed(set_child(Seq::empty(), decimal(old.id as nat), NodeView::Item(old)), decimal(id as nat)),
{
    broadcast use vstd::multiset::group_multiset_axioms;

    let e = Seq::<(Seq<char>, NodeView)>::empty();
    let b = set_child(e, decimal(old.id as nat), NodeView::Item(old));
    assert(cl_wf(e));
    lemma_set_child_wf(e, decimal(old.id as nat), NodeView::Item(old));
    lemma_set_child_ordered(e, decimal(old.id as nat), NodeView::Item(old));
    lemma_set_child_nonempty(e, decimal(old.id as nat), NodeView::Item(old));
    lemma_add_child_ids(e, decimal(old.id as nat), NodeView::Item(old));
    lemma_ids_of_single(old);
    assert(cl_leafs(e).map_values(|l: NotificationView| l.id) =~= Seq::<u32>::empty());
    lemma_empty_to_multiset();
    assert(b.len() == 1);
}

/// Law: in a tree built by the operations, nothing is lost by filing a notification
/// whose id no notification has, where no group is keyed by its id; if the path meets no
/// notification, it is filed cleanly.
pub proof fn lemma_files_well(c: Seq<(Seq<char>, NodeView)>, keys: Seq<Seq<char>>, id: u32)
    requires
        tree_inv(c),
        leaf_ids(c).count(id) == 0,
        no_group_keyed(c, decimal(id as nat)),
    ensures
        files_without_loss(c, keys, id),
        path_meets_no_leaf(c, keys) ==> files_cleanly(c, keys, id),
    decreases keys.len(),
{
    let kd = decimal(id as nat);
    if keys.len() == 0 {
        if has_key(c, kd) {
            let p = key_pos(c, kd);
            assert(node_not_group_keyed(c[p].0, c[p].1, kd));
            assert(node_ordered(c[p].0, c[p].1));
            match c[p].1 {
                NodeView::Item(x) => {
                    lemma_decimal_injective(x.id as nat, id as nat);
                    lemma_child_item(c, kd);
                },
                NodeView::Group(_) => {},
            }
        }
    } else {
        let k = keys[0];
        match get_child(c, k) {
            Some(NodeView::Group(sub)) => {
                lemma_child_group(c, k, id);
                lemma_files_well(sub, keys.drop_first(), id);
            },
            Some(NodeView::Item(old)) => {
                lemma_child_item(c, k);
                lemma_single_leaf_group(old, id);
                lemma_files_well(
                    set_child(Seq::empty(), decimal(old.id as nat), NodeView::Item(old)),
                    keys.drop_first(),
                    id,
                );
            },
            None => {},
        }
    }
}

/// Law: in a tree built by the operations, filing a notification whose id no
/// notification has, where no group is keyed by its id, adds exactly it: no notification
/// is lost or changed (one met on the path is kept inside the new group), and the count
/// grows by one.
pub proof fn lemma_insert_adds_one(c: Seq<(Seq<char>, NodeView)>, keys: Seq<Seq<char>>, n: NotificationView)
    requires
        tree_inv(c),
        leaf_ids(c).count(n.id) == 0,
        no_group_keyed(c, decimal(n.id as nat)),
    ensures
        leaf_bag(insert_view(c, keys, n)) == leaf_bag(c).insert(n),
        cl_len(insert_view(c, keys, n)) == cl_len(c) + 1,
{
    broadcast use vstd::multiset::group_multiset_axioms;

    lemma_files_well(c, keys, n.id);
    lemma_insert_bag(c, keys, n);
    let t = insert_view(c, keys, n);
    lemma_cl_len_leafs(c);
    lemma_cl_len_leafs(t);
    vstd::seq_lib::to_multiset_len(cl_leafs(c));
    vstd::seq_lib::to_multiset_len(cl_leafs(t));
}

/// No removal along any path ends at a group keyed by `id` when no group is.
proof fn lemma_no_group_no_end(c: Seq<(Seq<char>, NodeView)>, keys: Seq<Seq<char>>, id: u32)
    requires
        tree_inv(c),
        no_group_keyed(c, decimal(id as nat)),
    ensures
        !ends_in_group(c, keys, id),
    decreases keys.len(),
{
    if keys.len() == 0 {
        let kd = decimal(id as nat);
        if has_key(c, kd) {
            let p = key_pos(c, kd);
            assert(node_not_group_keyed(c[p].0, c[p].1, kd));
        }
    } else {
        match get_child(c, keys[0]) {
            Some(NodeView::Group(sub)) => {
                lemma_child_group(c, keys[0], id);
                lemma_no_group_no_end(sub, keys.drop_first(), id);
            },
            _ => {},
        }
    }
}

/// What removal reports has the id asked for, when notifications are keyed by their ids.
proof fn lemma_removed_has_id(c: Seq<(Seq<char>, NodeView)>, keys: Seq<Seq<char>>, id: u32)
    requires
        tree_inv(c),
    ensures
        remove_view(c, keys, id).1 matches Some(x) ==> x.id == id,
    decreases keys.len(),
{
    if keys.len() == 0 {
        let kd = decimal(id as nat);
        if has_key(c, kd) {
            let p = key_pos(c, kd);
            assert(node_ordered(c[p].0, c[p].1));
            if let NodeView::Item(x) = c[p].1 {
                lemma_decimal_injective(x.id as nat, id as nat);
            }
        }
    } else {
        match get_child(c, keys[0]) {
            Some(NodeView::Group(sub)) => {
                lemma_child_group(c, keys[0], id);
                lemma_removed_has_id(sub, keys.drop_first(), id);
            },
            _ => {},
        }
    }
}

/// Law: in a tree built by the operations where no group is keyed by `id`, removal
/// reports what the walk along `keys` finds, a notification with that id; it takes
/// exactly that notification out, and when it finds none the tree is unchanged.
pub proof fn lemma_remove_exact(c: Seq<(Seq<char>, NodeView)>, keys: Seq<Seq<char>>, id: u32)
    requires
        tree_inv(c),
        no_group_keyed(c, decimal(id as nat)),
    ensures
        remove_view(c, keys, id).1 == found_along(c, keys, id),
        remove_view(c, keys, id).1 matches Some(x) ==> x.id == id && leaf_bag(remove_view(c, keys, id).0).insert(x)
            == leaf_bag(c),
        remove_view(c, keys, id).1 is None ==> remove_view(c, keys, id).0 == c,
{
    lemma_remove_finds(c, keys, id);
    lemma_removed_has_id(c, keys, id);
    lemma_no_group_no_end(c, keys, id);
    lemma_remove_bag(c, keys, id);
}

/// Law: in a tree built by the operations, filing a notification whose id no
/// notification has, where no group is keyed by its id, along a path that meets no
/// notification, and then removing it along the same path, gives the notification back
/// and the tree as it was.
pub proof fn lemma_insert_remove_gives_back(c: Seq<(Seq<char>, NodeView)>, keys: Seq<Seq<char>>, n: NotificationView)
    requires
        tree_inv(c),
        leaf_ids(c).count(n.id) == 0,
        no_group_keyed(c, decimal(n.id as nat)),
        path_meets_no_leaf(c, keys),
    ensures
        remove_view(insert_view(c, keys, n), keys, n.id) == (c, Some(n)),
{
    lemma_files_well(c, keys, n.id);
    lemma_insert_remove_round_trip(c, keys, n);
    lemma_insert_then_remove(c, keys, n);
}

/// Law: in a tree built by the operations, a notification is stored under its id in
/// decimal (in every group, by `lemma_child_group`).
pub proof fn lemma_leaf_keyed_by_id(c: Seq<(Seq<char>, NodeView)>, k: Seq<char>)
    requires
        tree_inv(c),
        get_child(c, k) matches Some(NodeView::Item(_)),
    ensures
        get_child(c, k) matches Some(NodeView::Item(x)) && k == decimal(x.id as nat),
{
    let q = key_pos(c, k);
    assert(node_ordered(c[q].0, c[q].1));
}

/// The group a walk reaches in a tree built by the operations is such a tree.
proof fn lemma_walk_inv(c: Seq<(Seq<char>, NodeView)>, ctx: Seq<Seq<char>>)
    requires
        tree_inv(c),
    ensures
        tree_inv(walk_view(c, ctx).1),
    decreases ctx.len(),
{
    if ctx.len() > 0 {
        if let Some(NodeView::Group(sub)) = get_child(c, ctx[0]) {
            lemma_child_group(c, ctx[0], 0);
            lemma_walk_inv(sub, ctx.drop_first());
        }
    }
}

/// Law (what removal finds): in a tree built by the operations, removing `id` along
/// `keys` reports a notification exactly when the walk along `keys` goes all the way or
/// stops at the key that is `id` in decimal, and the group reached holds a notification
/// under that key; it reports that notification.
pub proof fn lemma_remove_hit(c: Seq<(Seq<char>, NodeView)>, keys: Seq<Seq<char>>, id: u32)
    requires
        tree_inv(c),
    ensures
        remove_view(c, keys, id).1 == ({
            let (p, d) = walk_view(c, keys);
            if p.len() == keys.len() || keys[p.len() as int] == decimal(id as nat) {
                match get_child(d, decimal(id as nat)) {
                    Some(NodeView::Item(m)) => Some(m),
                    _ => None,
                }
            } else {
                None
            }
        }),
{
    lemma_remove_finds(c, keys, id);
    lemma_walk_prefix(c, keys);
    lemma_walk_inv(c, keys);
    let (p, d) = walk_view(c, keys);
    if p.len() < keys.len() {
        let k = keys[p.len() as int];
        if let Some(NodeView::Item(x)) = get_child(d, k) {
            lemma_leaf_keyed_by_id(d, k);
            if x.id == id {
                assert(k == decimal(id as nat));
            } else if k == decimal(id as nat) {
                lemma_decimal_injective(x.id as nat, id as nat);
            }
        }
    }
}

/// The node at the end of `path`, followed through groups; none for the empty path.
pub open spec fn node_at(c: Seq<(Seq<char>, NodeView)>, path: Seq<Seq<char>>) -> Option<NodeView>
    decreases path.len(),
{
    if path.len() == 0 {
        None
    } else if path.len() == 1 {
        get_child(c, path[0])
    } else {
        match get_child(c, path[0]) {
            Some(NodeView::Group(sub)) => node_at(sub, path.drop_first()),
            _ => None,
        }
    }
}

/// Law: removing a branch reports exactly the notifications of the node at the path
/// (none when there is none, or the path is empty), and an empty path changes nothing.
pub proof fn lemma_remove_branch_path_result(c: Seq<(Seq<char>, NodeView)>, path: Seq<Seq<char>>)
    ensures
        remove_branch_path_view(c, path).1 == (match node_at(c, path) {
            Some(n) => node_leafs(n),
            None => Seq::empty(),
        }),
        path.len() == 0 ==> remove_branch_path_view(c, path).0 == c,
    decreases path.len(),
{
    if path.len() > 1 {
        if let Some(NodeView::Group(sub)) = get_child(c, path[0]) {
            lemma_remove_branch_path_result(sub, path.drop_first());
        }
    }
}

/// Law: once a branch is removed, its path is no longer a context of the tree.
pub proof fn lemma_remove_branch_path_gone(c: Seq<(Seq<char>, NodeView)>, path: Seq<Seq<char>>)
    requires
        cl_wf(c),
        path.len() > 0,
    ensures
        !has_context_view(remove_branch_path_view(c, path).0, path),
    decreases path.len(),
{
    let k = path[0];
    lemma_remove_child_wf(c, k);
    if path.len() > 1 {
        match get_child(c, k) {
            Some(NodeView::Group(sub)) => {
                lemma_get_child_wf(c, k);
                lemma_remove_branch_path_gone(sub, path.drop_first());
                let (sub2, r) = remove_branch_path_view(sub, path.drop_first());
                lemma_remove_branch_path_wf(sub, path.drop_first());
                lemma_set_child_wf(c, k, NodeView::Group(sub2));
            },
            _ => {},
        }
    }
}

/// Law: the urgency of a group is the highest urgency among its notifications
/// (0 when it has none), and the best notification is one of them.
pub proof fn lemma_urgency_is_max(s: Seq<NotificationView>)
    ensures
        forall|i: int| 0 <= i < s.len() ==> (#[trigger] s[i]).urgency <= urgency_of(s),
        s.len() > 0 ==> best_of(s) is Some && s.contains(best_of(s).unwrap()),
        s.len() == 0 ==> urgency_of(s) == 0,
    decreases s.len(),
{
    if s.len() > 0 {
        lemma_urgency_is_max(s.drop_last());
        assert forall|i: int| 0 <= i < s.len() implies (#[trigger] s[i]).urgency <= urgency_of(s) by {
            if i < s.len() - 1 {
                assert(s[i] == s.drop_last()[i]);
            }
        }
        if s.drop_last().len() > 0 {
            let b = best_of(s.drop_last()).unwrap();
            let j = choose|j: int| 0 <= j < s.drop_last().len() && s.drop_last()[j] == b;
            assert(s[j] == b);
        }
        assert(s[s.len() - 1] == s.last());
    }
}

/// Law: the best notification of a non-empty sequence is one of them, at least as urgent
/// as every other, and, among those as urgent, created no earlier than any.
pub proof fn lemma_best_is_latest_most_urgent(s: Seq<NotificationView>)
    requires
        s.len() > 0,
    ensures
        best_of(s) matches Some(b) && s.contains(b) && (forall|i: int|
            0 <= i < s.len() ==> (#[trigger] s[i]).urgency <= b.urgency && (s[i].urgency == b.urgency
                ==> s[i].created_at <= b.created_at)),
    decreases s.len(),
{
    let d = s.drop_last();
    let l = s.last();
    assert(s[s.len() - 1] == l);
    if d.len() == 0 {
        assert(best_of(d) is None);
    } else {
        lemma_best_is_latest_most_urgent(d);
        let b = best_of(d).unwrap();
        let j = choose|j: int| 0 <= j < d.len() && d[j] == b;
        assert(s[j] == b);
        assert forall|i: int| 0 <= i < s.len() - 1 implies #[trigger] s[i] == d[i] by {}
    }
}

// ---------------------------------------------------------------------------
// Keys
// ---------------------------------------------------------------------------

/// Whether `a` sorts before `b`.
pub fn key_lt(a: &String, b: &String) -> (r: bool)
    ensures
        r == seq_lt(a@, b@),
{
    let x = chars_of(a.as_str());
    let y = chars_of(b.as_str());
    let mut i: usize = 0;
    assert(x@.skip(0) =~= x@);
    assert(y@.skip(0) =~= y@);
    while i < x.len() && i < y.len() && x[i] == y[i]
        invariant
            i <= x@.len(),
            i <= y@.len(),
            seq_lt(a@, b@) == seq_lt(x@.skip(i as int), y@.skip(i as int)),
            x@ == a@,
            y@ == b@,
        decreases x@.len() - i,
    {
        assert(x@.skip(i as int).drop_first() =~= x@.skip(i + 1));
        assert(y@.skip(i as int).drop_first() =~= y@.skip(i + 1));
        i += 1;
    }
    if i == x.len() {
        i < y.len()
    } else if i == y.len() {
        false
    } else {
        x[i] < y[i]
    }
}

pub open spec fn strs_view(s: Seq<String>) -> Seq<Seq<char>> {
    s.map_values(|k: String| k@)
}

pub open spec fn opt_view(o: Option<Notification>) -> Option<NotificationView> {
    match o {
        Some(n) => Some(n@),
        None => None,
    }
}

pub open spec fn opt_ref_view(o: Option<&Notification>) -> Option<NotificationView> {
    match o {
        Some(n) => Some(n@),
        None => None,
    }
}

impl ClusterNode {
    /// Number of notifications under this node.
    pub fn len(&self) -> (r: usize)
        requires
            node_len(self@) <= usize::MAX,
        ensures
            r == node_len(self@),
        decreases self, 1int,
    {
        match self {
            ClusterNode::Cluster(c) => c.len(),
            ClusterNode::Leaf(_) => 1,
        }
    }

    pub fn is_empty(&self) -> (r: bool)
        requires
            node_len(self@) <= usize::MAX,
        ensures
            r == (node_len(self@) == 0),
    {
        self.len() == 0
    }

    /// Urgency of the best notification under this node (0 when there is none).
    pub fn urgency(&self) -> (r: u8)
        ensures
            r == urgency_of(node_leafs(self@)),
    {
        match self {
            ClusterNode::Cluster(c) => c.urgency(),
            ClusterNode::Leaf(n) => {
                proof {
                    lemma_best_of_single(n@);
                }
                n.urgency
            },
        }
    }

    /// The best notification under this node: highest urgency, then latest creation,
    /// first in order on ties.
    pub fn best(&self) -> (r: Option<&Notification>)
        ensures
            opt_ref_view(r) == best_of(node_leafs(self@)),
        decreases self, 1int,
    {
        match self {
            ClusterNode::Cluster(c) => c.best(),
            ClusterNode::Leaf(n) => {
                proof {
                    lemma_best_of_single(n@);
                }
                Some(n)
            },
        }
    }

    /// Copies of the notifications under this node, in order.
    pub fn leafs(&self) -> (r: Vec<Notification>)
        ensures
            views(r@) == node_leafs(self@),
        decreases self, 1int,
    {
        match self {
            ClusterNode::Cluster(c) => c.leafs(),
            ClusterNode::Leaf(n) => {
                let mut v: Vec<Notification> = Vec::new();
                v.push(n.clone());
                assert(views(v@) =~= seq![n@]);
                v
            },
        }
    }
}

impl ClusterNode {
    /// A copy of this node, notifications included.
    fn duplicate(&self) -> (r: Self)
        ensures
            r@ == self@,
        decreases self, 1int,
    {
        match self {
            ClusterNode::Cluster(c) => ClusterNode::Cluster(c.duplicate()),
            ClusterNode::Leaf(n) => ClusterNode::Leaf(n.clone()),
        }
    }
}

impl NotificationCluster {
    /// A copy of the tree, notifications included.
    fn duplicate(&self) -> (r: Self)
        ensures
            r@ == self@,
        decreases self, 0int,
    {
        proof {
            lemma_children_view(self.children@);
        }
        let mut out: Vec<(String, ClusterNode)> = Vec::new();
        let n = self.children.len();
        for i in 0..n
            invariant
                n == self.children@.len(),
                self@.len() == n,
                children_view(out@) == self@.subrange(0, i as int),
                forall|j: int| 0 <= j < n ==> #[trigger] self@[j] == (self.children@[j].0@, node_view(self.children@[j].1)),
        {
            let k = self.children[i].0.clone();
            let c = self.children[i].1.duplicate();
            let ghost before = out@;
            out.push((k, c));
            proof {
                assert(out@.drop_last() == before);
                assert(children_view(out@) =~= self@.subrange(0, i as int + 1));
            }
        }
        assert(self@.subrange(0, n as int) =~= self@);
        NotificationCluster { children: out }
    }
}

impl Clone for ClusterNode {
    fn clone(&self) -> (r: Self)
        ensures
            r@ == self@,
    {
        self.duplicate()
    }
}

impl Clone for NotificationCluster {
    fn clone(&self) -> (r: Self)
        ensures
            r@ == self@,
    {
        self.duplicate()
    }
}

impl NotificationCluster {
    pub fn new() -> (r: Self)
        ensures
            r@ == Seq::<(Seq<char>, NodeView)>::empty(),
            cl_wf(r@),
            tree_inv(r@),
    {
        NotificationCluster { children: Vec::new() }
    }

    /// Number of notifications in the tree.
    pub fn len(&self) -> (r: usize)
        requires
            cl_len(self@) <= usize::MAX,
        ensures
            r == cl_len(self@),
        decreases self, 1int,
    {
        proof {
            lemma_children_view(self.children@);
        }
        let mut total: usize = 0;
        let n = self.children.len();
        for i in 0..n
            invariant
                n == self.children@.len(),
                self@.len() == n,
                cl_len(self@) <= usize::MAX,
                total == cl_len(self@.subrange(0, i as int)),
                forall|j: int| 0 <= j < n ==> #[trigger] self@[j] == (self.children@[j].0@, node_view(self.children@[j].1)),
        {
            proof {
                lemma_prefix_step(self@, i as int);
                lemma_prefix_len_le(self@, i + 1);
            }
            let l = self.children[i].1.len();
            total = total + l;
        }
        assert(self@.subrange(0, n as int) =~= self@);
        total
    }

    pub fn is_empty(&self) -> (r: bool)
        ensures
            r == (self@.len() == 0),
    {
        proof {
            lemma_children_view(self.children@);
        }
        self.children.len() == 0
    }

    /// Urgency of the best notification in the tree (0 when empty).
    pub fn urgency(&self) -> (r: u8)
        ensures
            r == urgency_of(cl_leafs(self@)),
    {
        match self.best() {
            Some(n) => n.urgency,
            None => 0,
        }
    }

    /// The best notification in the tree: highest urgency, then latest creation,
    /// first in order on ties.
    pub fn best(&self) -> (r: Option<&Notification>)
        ensures
            opt_ref_view(r) == best_of(cl_leafs(self@)),
        decreases self, 1int,
    {
        proof {
            lemma_children_view(self.children@);
        }
        let mut acc: Option<&Notification> = None;
        let n = self.children.len();
        for i in 0..n
            invariant
                n == self.children@.len(),
                self@.len() == n,
                opt_ref_view(acc) == best_of(cl_leafs(self@.subrange(0, i as int))),
                forall|j: int| 0 <= j < n ==> #[trigger] self@[j] == (self.children@[j].0@, node_view(self.children@[j].1)),
        {
            proof {
                lemma_prefix_step(self@, i as int);
                lemma_best_of_concat(cl_leafs(self@.subrange(0, i as int)), node_leafs(self@[i as int].1));
            }
            let cand = self.children[i].1.best();
            match cand {
                Some(c) => {
                    match acc {
                        None => {
                            acc = Some(c);
                        },
                        Some(cur) => {
                            if c.urgency > cur.urgency || (c.urgency == cur.urgency && c.created_at > cur.created_at) {
                                acc = Some(c);
                            }
                        },
                    }
                },
                None => {},
            }
        }
        assert(self@.subrange(0, n as int) =~= self@);
        acc
    }

    /// Copies of all notifications, children in key order, depth first.
    pub fn leafs(&self) -> (r: Vec<Notification>)
        ensures
            views(r@) == cl_leafs(self@),
        decreases self, 1int,
    {
        proof {
            lemma_children_view(self.children@);
        }
        let mut out: Vec<Notification> = Vec::new();
        let n = self.children.len();
        for i in 0..n
            invariant
                n == self.children@.len(),
                self@.len() == n,
                views(out@) == cl_leafs(self@.subrange(0, i as int)),
                forall|j: int| 0 <= j < n ==> #[trigger] self@[j] == (self.children@[j].0@, node_view(self.children@[j].1)),
        {
            proof {
                lemma_prefix_step(self@, i as int);
            }
            let mut sub = self.children[i].1.leafs();
            let ghost before = out@;
            let ghost added = sub@;
            out.append(&mut sub);
            assert(views(out@) =~= views(before) + views(added));
        }
        assert(self@.subrange(0, n as int) =~= self@);
        out
    }

    /// Position of the child keyed `k`.
    pub fn index_of(&self, k: &String) -> (r: Option<usize>)
        ensures
            r matches Some(i) ==> i < self@.len() && self@[i as int].0 == k@,
            r is None ==> !has_key(self@, k@),
    {
        proof {
            lemma_children_view(self.children@);
        }
        let n = self.children.len();
        for j in 0..n
            invariant
                n == self.children@.len(),
                self@.len() == n,
                forall|i: int| 0 <= i < j ==> self@[i].0 != k@,
                forall|i: int| 0 <= i < n ==> #[trigger] self@[i] == (self.children@[i].0@, node_view(self.children@[i].1)),
        {
            if self.children[j].0 == *k {
                return Some(j);
            }
        }
        None
    }

    /// Sets the child keyed `k` to `v`.
    fn set_child_exec(&mut self, k: String, v: ClusterNode)
        requires
            keys_distinct(old(self)@),
        ensures
            final(self)@ == set_child(old(self)@, k@, v@),
    {
        proof {
            lemma_children_view(self.children@);
        }
        match self.index_of(&k) {
            Some(i) => {
                proof {
                    lemma_get_child(self@, k@, i as int);
                }
                let ghost old_children = self.children@;
                let ghost entry = (k, v);
                self.children.set(i, (k, v));
                proof {
                    lemma_children_view(self.children@);
                    assert(self@ =~= children_view(old_children).update(i as int, (entry.0@, node_view(entry.1))));
                }
            },
            None => {
                let n = self.children.len();
                let mut j: usize = 0;
                while j < n && !key_lt(&k, &self.children[j].0)
                    invariant
                        n == self.children@.len(),
                        self@.len() == n,
                        j <= n,
                        first_greater(self@, k@, 0) == first_greater(self@, k@, j as int),
                        forall|i: int| 0 <= i < n ==> #[trigger] self@[i] == (self.children@[i].0@, node_view(self.children@[i].1)),
                    decreases n - j,
                {
                    j += 1;
                }
                let ghost old_children = self.children@;
                let ghost entry = (k, v);
                self.children.insert(j, (k, v));
                proof {
                    lemma_children_view(self.children@);
                    assert(self@ =~= children_view(old_children).insert(j as int, (entry.0@, node_view(entry.1))));
                }
            },
        }
    }

    /// Files `notification` under the path `keys`; see `insert_view`.
    pub fn insert(&mut self, keys: &[String], notification: Notification)
        requires
            cl_wf(old(self)@),
        ensures
            cl_wf(final(self)@),
            final(self)@ == insert_view(old(self)@, strs_view(keys@), notification@),
            tree_inv(old(self)@) ==> tree_inv(final(self)@),
        decreases keys@.len(),
    {
        proof {
            lemma_insert_wf(self@, strs_view(keys@), notification@);
            if tree_inv(self@) {
                lemma_tree_inv_kept(self@, strs_view(keys@), notification@, 0);
            }
        }
        let ghost kv = strs_view(keys@);
        if keys.len() == 0 {
            let id_key = u32_to_decimal(notification.id);
            self.set_child_exec(id_key, ClusterNode::Leaf(notification));
            return;
        }
        let rest: &[String] = &keys[1..keys.len()];
        assert(strs_view(rest@) =~= kv.drop_first());
        assert(kv[0] == keys@[0]@);
        proof {
            lemma_children_view(self.children@);
        }
        match self.index_of(&keys[0]) {
            None => {
                let mut sub = NotificationCluster::new();
                sub.insert(rest, notification);
                self.set_child_exec(keys[0].clone(), ClusterNode::Cluster(sub));
            },
            Some(i) => {
                proof {
                    lemma_get_child(self@, kv[0], i as int);
                }
                let ghost old_children = self.children@;
                let (key, node) = self.children.remove(i);
                let sub = match node {
                    ClusterNode::Cluster(mut sub) => {
                        proof {
                            lemma_get_child_wf(children_view(old_children), kv[0]);
                        }
                        sub.insert(rest, notification);
                        sub
                    },
                    ClusterNode::Leaf(old_leaf) => {
                        let mut sub = NotificationCluster::new();
                        let old_key = u32_to_decimal(old_leaf.id);
                        sub.set_child_exec(old_key, ClusterNode::Leaf(old_leaf));
                        proof {
                            lemma_set_child_wf(Seq::empty(), decimal(old_leaf.id as nat), NodeView::Item(old_leaf@));
                        }
                        sub.insert(rest, notification);
                        sub
                    },
                };
                let ghost entry = (key, ClusterNode::Cluster(sub));
                self.children.insert(i, (key, ClusterNode::Cluster(sub)));
                proof {
                    lemma_children_view(self.children@);
                    assert(self.children@ =~= old_children.update(i as int, entry));
                    assert(self@ =~= children_view(old_children).update(i as int, (entry.0@, node_view(entry.1))));
                }
            },
        }
    }

    /// Removes the child at position `i`, returning it.
    fn take_child(&mut self, i: usize) -> (r: (String, ClusterNode))
        requires
            i < old(self)@.len(),
            keys_distinct(old(self)@),
        ensures
            final(self)@ == remove_child(old(self)@, r.0@),
            old(self)@[i as int] == (r.0@, r.1@),
            get_child(old(self)@, r.0@) == Some(r.1@),
    {
        proof {
            lemma_children_view(self.children@);
        }
        let ghost old_children = self.children@;
        let r = self.children.remove(i);
        proof {
            lemma_children_view(self.children@);
            lemma_get_child(children_view(old_children), r.0@, i as int);
            assert(self@ =~= children_view(old_children).remove(i as int));
        }
        r
    }

    /// Removes notification `id` filed along `keys`; see `remove_view`.
    pub fn remove(&mut self, keys: &[String], id: u32) -> (r: Option<Notification>)
        requires
            cl_wf(old(self)@),
        ensures
            cl_wf(final(self)@),
            final(self)@ == remove_view(old(self)@, strs_view(keys@), id).0,
            opt_view(r) == remove_view(old(self)@, strs_view(keys@), id).1,
            tree_inv(old(self)@) ==> tree_inv(final(self)@),
        decreases keys@.len(),
    {
        proof {
            if tree_inv(self@) {
                lemma_tree_inv_kept(self@, strs_view(keys@), arbitrary(), id);
            }
            lemma_remove_wf(self@, strs_view(keys@), id);
            lemma_children_view(self.children@);
        }
        let ghost kv = strs_view(keys@);
        if keys.len() == 0 {
            let id_key = u32_to_decimal(id);
            match self.index_of(&id_key) {
                Some(i) => {
                    let (_k, node) = self.take_child(i);
                    match node {
                        ClusterNode::Leaf(n) => {
                            return Some(n);
                        },
                        ClusterNode::Cluster(_) => {
                            return None;
                        },
                    }
                },
                None => {
                    return None;
                },
            }
        }
        let rest: &[String] = &keys[1..keys.len()];
        assert(strs_view(rest@) =~= kv.drop_first());
        assert(kv[0] == keys@[0]@);
        match self.index_of(&keys[0]) {
            None => None,
            Some(i) => {
                proof {
                    lemma_get_child(self@, kv[0], i as int);
                }
                let is_cluster = match &self.children[i].1 {
                    ClusterNode::Cluster(_) => true,
                    ClusterNode::Leaf(n) => {
                        if n.id != id {
                            return None;
                        }
                        false
                    },
                };
                let ghost before = self@;
                let ghost old_children = self.children@;
                let (key, node) = self.children.remove(i);
                proof {
                    lemma_children_view(self.children@);
                    assert(self@ =~= before.remove(i as int));
                }
                match node {
                    ClusterNode::Leaf(n) => Some(n),
                    ClusterNode::Cluster(mut sub) => {
                        proof {
                            lemma_get_child_wf(before, kv[0]);
                        }
                        let removed = sub.remove(rest, id);
                        proof {
                            lemma_children_view(sub.children@);
                        }
                        if sub.children.len() == 0 {
                            removed
                        } else {
                            let ghost entry = (key, ClusterNode::Cluster(sub));
                            self.children.insert(i, (key, ClusterNode::Cluster(sub)));
                            proof {
                                lemma_children_view(self.children@);
                                assert(self.children@ =~= old_children.update(i as int, entry));
                                assert(self@ =~= before.update(i as int, (entry.0@, node_view(entry.1))));
                            }
                            removed
                        }
                    },
                }
            },
        }
    }

    /// Removes the whole child keyed `key`, returning the notifications it held.
    pub fn remove_branch(&mut self, key: &str) -> (r: Vec<Notification>)
        requires
            cl_wf(old(self)@),
        ensures
            cl_wf(final(self)@),
            final(self)@ == remove_branch_view(old(self)@, key@).0,
            views(r@) == remove_branch_view(old(self)@, key@).1,
            tree_inv(old(self)@) ==> tree_inv(final(self)@),
    {
        proof {
            if tree_inv(self@) {
                lemma_tree_inv_kept(self@, seq![key@], arbitrary(), 0);
                assert(seq![key@][0] == key@);
            }
            lemma_remove_child_wf(self@, key@);
            lemma_children_view(self.children@);
        }
        let k: String = key.to_owned();
        match self.index_of(&k) {
            Some(i) => {
                proof {
                    lemma_get_child(self@, key@, i as int);
                }
                let ghost before = self@;
                let (_key, node) = self.children.remove(i);
                proof {
                    lemma_children_view(self.children@);
                    assert(self@ =~= before.remove(i as int));
                }
                node.leafs()
            },
            None => {
                let r: Vec<Notification> = Vec::new();
                assert(views(r@) =~= Seq::<NotificationView>::empty());
                r
            },
        }
    }

    /// Removes the branch at the end of `path`; see `remove_branch_path_view`.
    pub fn remove_branch_path(&mut self, path: &[String]) -> (r: Vec<Notification>)
        requires
            cl_wf(old(self)@),
        ensures
            cl_wf(final(self)@),
            final(self)@ == remove_branch_path_view(old(self)@, strs_view(path@)).0,
            views(r@) == remove_branch_path_view(old(self)@, strs_view(path@)).1,
            tree_inv(old(self)@) ==> tree_inv(final(self)@),
        decreases path@.len(),
    {
        proof {
            if tree_inv(self@) {
                lemma_tree_inv_kept(self@, strs_view(path@), arbitrary(), 0);
            }
            lemma_remove_branch_path_wf(self@, strs_view(path@));
            lemma_children_view(self.children@);
        }
        let ghost pv = strs_view(path@);
        if path.len() == 0 {
            let r: Vec<Notification> = Vec::new();
            assert(views(r@) =~= Seq::<NotificationView>::empty());
            return r;
        }
        assert(pv[0] == path@[0]@);
        if path.len() == 1 {
            return self.remove_branch(path[0].as_str());
        }
        let rest: &[String] = &path[1..path.len()];
        assert(strs_view(rest@) =~= pv.drop_first());
        let empty: Vec<Notification> = Vec::new();
        assert(views(empty@) =~= Seq::<NotificationView>::empty());
        match self.index_of(&path[0]) {
            None => empty,
            Some(i) => {
                proof {
                    lemma_get_child(self@, pv[0], i as int);
                }
                let is_cluster = match &self.children[i].1 {
                    ClusterNode::Cluster(_) => true,
                    ClusterNode::Leaf(_) => false,
                };
                if !is_cluster {
                    return empty;
                }
                let ghost before = self@;
                let ghost old_children = self.children@;
                let (key, node) = self.children.remove(i);
                proof {
                    lemma_children_view(self.children@);
                    assert(self@ =~= before.remove(i as int));
                }
                match node {
                    ClusterNode::Leaf(_) => empty,
                    ClusterNode::Cluster(mut sub) => {
                        proof {
                            lemma_get_child_wf(before, pv[0]);
                        }
                        let removed = sub.remove_branch_path(rest);
                        proof {
                            lemma_children_view(sub.children@);
                        }
                        if sub.children.len() != 0 {
                            let ghost entry = (key, ClusterNode::Cluster(sub));
                            self.children.insert(i, (key, ClusterNode::Cluster(sub)));
                            proof {
                                lemma_children_view(self.children@);
                                assert(self.children@ =~= old_children.update(i as int, entry));
                                assert(self@ =~= before.update(i as int, (entry.0@, node_view(entry.1))));
                            }
                        }
                        removed
                    },
                }
            },
        }
    }

    /// Whether `context` is a path of groups in the tree.
    pub fn has_context(&self, context: &[String]) -> (r: bool)
        requires
            cl_wf(self@),
        ensures
            r == has_context_view(self@, strs_view(context@)),
        decreases context@.len(),
    {
        let ghost cv = strs_view(context@);
        if context.len() == 0 {
            return true;
        }
        assert(cv[0] == context@[0]@);
        let rest: &[String] = &context[1..context.len()];
        assert(strs_view(rest@) =~= cv.drop_first());
        proof {
            lemma_children_view(self.children@);
        }
        match self.index_of(&context[0]) {
            None => false,
            Some(i) => {
                proof {
                    lemma_get_child(self@, cv[0], i as int);
                    lemma_get_child_wf(self@, cv[0]);
                }
                match &self.children[i].1 {
                    ClusterNode::Cluster(sub) => sub.has_context(rest),
                    ClusterNode::Leaf(_) => false,
                }
            },
        }
    }

    fn walk<'a>(&'a self, context: &[String]) -> (r: (Vec<String>, &'a NotificationCluster))
        requires
            cl_wf(self@),
        ensures
            strs_view(r.0@) == walk_view(self@, strs_view(context@)).0,
            r.1@ == walk_view(self@, strs_view(context@)).1,
            cl_wf(r.1@),
            cl_len(r.1@) <= cl_len(self@),
        decreases context@.len(),
    {
        let ghost cv = strs_view(context@);
        if context.len() == 0 {
            let p: Vec<String> = Vec::new();
            assert(strs_view(p@) =~= Seq::<Seq<char>>::empty());
            return (p, self);
        }
        assert(cv[0] == context@[0]@);
        let rest: &[String] = &context[1..context.len()];
        assert(strs_view(rest@) =~= cv.drop_first());
        proof {
            lemma_children_view(self.children@);
        }
        let empty: Vec<String> = Vec::new();
        assert(strs_view(empty@) =~= Seq::<Seq<char>>::empty());
        match self.index_of(&context[0]) {
            None => (empty, self),
            Some(i) => {
                proof {
                    lemma_get_child(self@, cv[0], i as int);
                    lemma_get_child_wf(self@, cv[0]);
                    lemma_child_len_le(self@, i as int);
                }
                match &self.children[i].1 {
                    ClusterNode::Cluster(sub) => {
                        let (p, d) = sub.walk(rest);
                        let mut path: Vec<String> = Vec::new();
                        path.push(context[0].clone());
                        let mut p2 = p;
                        let ghost pv = p2@;
                        path.append(&mut p2);
                        assert(strs_view(path@) =~= seq![cv[0]] + strs_view(pv));
                        (path, d)
                    },
                    ClusterNode::Leaf(_) => (empty, self),
                }
            },
        }
    }

    fn descend<'a>(&'a self, at_root: bool) -> (r: (Vec<String>, &'a NotificationCluster))
        requires
            cl_wf(self@),
            cl_len(self@) <= usize::MAX,
        ensures
            strs_view(r.0@) == descend_view(self@, at_root).0,
            r.1@ == descend_view(self@, at_root).1,
            cl_wf(r.1@),
            cl_len(r.1@) <= cl_len(self@),
        decreases self,
    {
        proof {
            lemma_children_view(self.children@);
        }
        let empty: Vec<String> = Vec::new();
        assert(strs_view(empty@) =~= Seq::<Seq<char>>::empty());
        if self.children.len() != 1 {
            return (empty, self);
        }
        match &self.children[0].1 {
            ClusterNode::Cluster(sub) => {
                proof {
                    lemma_child_len_le(self@, 0);
                    assert(node_wf(self@[0].1));
                }
                if at_root && sub.len() > 1 {
                    return (empty, self);
                }
                let (p, d) = sub.descend(false);
                let mut path: Vec<String> = Vec::new();
                path.push(self.children[0].0.clone());
                let mut p2 = p;
                let ghost pv = p2@;
                path.append(&mut p2);
                assert(strs_view(path@) =~= seq![self@[0].0] + strs_view(pv));
                (path, d)
            },
            ClusterNode::Leaf(_) => (empty, self),
        }
    }

    /// Resolves a context path to the path actually designated (following groups as far
    /// as they go, then, when asked, descending through single-child groups) and the
    /// group it designates; see `resolve_view`.
    pub fn resolve_context<'a>(&'a self, context: &[String], auto_descend: bool) -> (r: (
        Vec<String>,
        &'a NotificationCluster,
    ))
        requires
            cl_wf(self@),
            cl_len(self@) <= usize::MAX,
        ensures
            strs_view(r.0@) == resolve_view(self@, strs_view(context@), auto_descend).0,
            r.1@ == resolve_view(self@, strs_view(context@), auto_descend).1,
            cl_wf(r.1@),
            cl_len(r.1@) <= cl_len(self@),
    {
        let (p, d) = self.walk(context);
        if auto_descend {
            let at_root = p.len() == 0 && context.len() == 0;
            let (p2, d2) = d.descend(at_root);
            let mut path = p;
            let ghost a = path@;
            let mut p3 = p2;
            let ghost b = p3@;
            path.append(&mut p3);
            assert(strs_view(path@) =~= strs_view(a) + strs_view(b));
            (path, d2)
        } else {
            (p, d)
        }
    }

    /// The group a context designates; see `resolve_context`.
    pub fn get_context<'a>(&'a self, context: &[String], auto_descend: bool) -> (r: &'a NotificationCluster)
        requires
            cl_wf(self@),
            cl_len(self@) <= usize::MAX,
        ensures
            r@ == resolve_view(self@, strs_view(context@), auto_descend).1,
            cl_wf(r@),
    {
        self.resolve_context(context, auto_descend).1
    }

    /// The child keyed `key`.
    pub fn child(&self, key: &String) -> (r: Option<&ClusterNode>)
        requires
            cl_wf(self@),
        ensures
            r matches Some(n) ==> get_child(self@, key@) == Some(node_view(*n)),
            r is None ==> get_child(self@, key@) is None,
    {
        proof {
            lemma_children_view(self.children@);
        }
        match self.index_of(key) {
            Some(i) => {
                proof {
                    lemma_get_child(self@, key@, i as int);
                }
                Some(&self.children[i].1)
            },
            None => None,
        }
    }

    /// Aggregates are computed from the tree on each query; nothing is cached, so
    /// there is nothing to reset.
    pub fn invalidate_cache(&self) {
    }
}

} // verus!
