use vstd::prelude::*;

verus! {

/// Index of a node in the arena of a [`BPlusTree`].
pub type NodeId = usize;

/// A node of the tree.  An internal node with `n` keys has `n + 1`
/// children; child `j` holds the keys `k` with `keys[j - 1] <= k < keys[j]`.
pub enum Node<V> {
    Internal { keys: Vec<i64>, children: Vec<NodeId> },
    Leaf { keys: Vec<i64>, values: Vec<V>, next: Option<NodeId> },
}

/// The number of keys that a node holds.
pub open spec fn key_count<V>(n: Node<V>) -> nat {
    match n {
        Node::Internal { keys, .. } => keys@.len(),
        Node::Leaf { keys, .. } => keys@.len(),
    }
}

/// No node of the arena `a` holds more than `order` keys.
pub open spec fn arena_fits<V>(a: Seq<Node<V>>, order: int) -> bool {
    forall|i: int| 0 <= i < a.len() ==> #[trigger] key_count(a[i]) <= order
}

/// Keys in non-decreasing order.
pub open spec fn sorted(s: Seq<i64>) -> bool {
    forall|i: int, j: int| 0 <= i < j < s.len() ==> s[i] <= s[j]
}

/// Keys in increasing order.
pub open spec fn strictly_sorted(s: Seq<i64>) -> bool {
    forall|i: int, j: int| 0 <= i < j < s.len() ==> s[i] < s[j]
}

/// Number of keys at most `k` in a sorted sequence: the child that a search
/// for `k` descends into, and one past the position of `k` in a leaf.
pub open spec fn route(s: Seq<i64>, k: int) -> int
    decreases s.len(),
{
    if s.len() == 0 {
        0
    } else if s.last() <= k {
        s.len() as int
    } else {
        route(s.drop_last(), k)
    }
}

/// Lower bound of the keys of child `j` of a node with bounds `lo`, `hi`.
pub open spec fn child_lo(lo: int, keys: Seq<i64>, j: int) -> int {
    if j == 0 {
        lo
    } else {
        keys[j - 1] as int
    }
}

/// Upper bound (exclusive) of the keys of child `j`.
pub open spec fn child_hi(keys: Seq<i64>, hi: int, j: int) -> int {
    if j < keys.len() {
        keys[j] as int
    } else {
        hi
    }
}

/// The arena positions that make up the subtree of height `h` rooted at `id`.
pub closed spec fn reach<V>(a: Seq<Node<V>>, id: int, h: nat) -> Set<int>
    decreases h, 0nat,
{
    if h > 0 && 0 <= id < a.len() && a[id] is Internal {
        set![id].union(reach_all(a, a[id]->children@, (h - 1) as nat))
    } else {
        set![id]
    }
}

/// The positions of the subtrees of height `h` rooted at the nodes `cs`.
pub closed spec fn reach_all<V>(a: Seq<Node<V>>, cs: Seq<NodeId>, h: nat) -> Set<int>
    decreases h, cs.len(),
{
    if cs.len() == 0 {
        Set::empty()
    } else {
        reach_all(a, cs.drop_last(), h).union(reach(a, cs.last() as int, h))
    }
}

/// The subtree of height `h` at `id` is a search tree for keys in `[lo, hi)`
/// whose nodes are all distinct.
pub closed spec fn wf_node<V>(a: Seq<Node<V>>, id: int, h: nat, lo: int, hi: int) -> bool
    decreases h, 1nat,
{
    &&& 0 <= id < a.len()
    &&& match a[id] {
        Node::Leaf { keys, values, .. } => {
            &&& h == 0
            &&& keys@.len() == values@.len()
            &&& strictly_sorted(keys@)
            &&& forall|j: int| 0 <= j < keys@.len() ==> lo <= #[trigger] keys@[j] < hi
        },
        Node::Internal { keys, children } => {
            &&& h > 0
            &&& children_ok(a, keys@, children@, h, lo, hi)
            &&& !reach_all(a, children@, (h - 1) as nat).contains(id)
        },
    }
}

/// The separators `keys` and the children `cs` of an internal node of
/// height `h` with bounds `lo`, `hi` are consistent: each child is a
/// well-formed subtree for its own key range, and no two children share a
/// position of the arena.
pub closed spec fn children_ok<V>(
    a: Seq<Node<V>>,
    keys: Seq<i64>,
    cs: Seq<NodeId>,
    h: nat,
    lo: int,
    hi: int,
) -> bool
    decreases h, 0nat,
{
    &&& h > 0
    &&& cs.len() == keys.len() + 1
    &&& sorted(keys)
    &&& forall|j: int| 0 <= j < keys.len() ==> lo <= #[trigger] keys[j] <= hi
    &&& forall|j: int|
        0 <= j < cs.len() ==> wf_node(
            a,
            #[trigger] cs[j] as int,
            (h - 1) as nat,
            child_lo(lo, keys, j),
            child_hi(keys, hi, j),
        )
    &&& forall|j1: int, j2: int|
        0 <= j1 < cs.len() && 0 <= j2 < cs.len() && j1 != j2 ==> reach(
            a,
            #[trigger] cs[j1] as int,
            (h - 1) as nat,
        ).disjoint(reach(a, #[trigger] cs[j2] as int, (h - 1) as nat))
}

/// The value stored under `k` in a leaf with `keys` and `values`.
pub open spec fn leaf_find<V>(keys: Seq<i64>, values: Seq<V>, k: int) -> Option<V> {
    let p = route(keys, k);
    if 0 < p && keys[p - 1] == k {
        Some(values[p - 1])
    } else {
        None
    }
}

/// What a search for `k` below an internal node with separators `keys` and
/// children `cs` finds.
pub closed spec fn internal_lookup<V>(a: Seq<Node<V>>, keys: Seq<i64>, cs: Seq<NodeId>, h: nat, k: int) -> Option<V> {
    lookup(a, cs[route(keys, k)] as int, (h - 1) as nat, k)
}

/// What a search for `k` in the subtree at `id` finds.
pub closed spec fn lookup<V>(a: Seq<Node<V>>, id: int, h: nat, k: int) -> Option<V>
    decreases h,
{
    if 0 <= id < a.len() {
        match a[id] {
            Node::Leaf { keys, values, .. } => leaf_find(keys@, values@, k),
            Node::Internal { keys, children } => {
                if h > 0 {
                    lookup(a, children@[route(keys@, k)] as int, (h - 1) as nat, k)
                } else {
                    None
                }
            },
        }
    } else {
        None
    }
}

/// `route` splits a sorted sequence into the keys at most `k` and the keys
/// above it.
pub proof fn lemma_route(s: Seq<i64>, k: int)
    requires
        sorted(s),
    ensures
        0 <= route(s, k) <= s.len(),
        forall|j: int| 0 <= j < route(s, k) ==> #[trigger] s[j] <= k,
        forall|j: int| route(s, k) <= j < s.len() ==> #[trigger] s[j] > k,
    decreases s.len(),
{
    if s.len() > 0 {
        if s.last() > k {
            let t = s.drop_last();
            assert(sorted(t));
            lemma_route(t, k);
            assert forall|j: int| 0 <= j < route(s, k) implies #[trigger] s[j] <= k by {
                assert(t[j] == s[j]);
            }
            assert forall|j: int| route(s, k) <= j < s.len() implies #[trigger] s[j] > k by {
                if j < t.len() {
                    assert(t[j] == s[j]);
                }
            }
        } else {
            assert forall|j: int| 0 <= j < route(s, k) implies #[trigger] s[j] <= k by {
                assert(s[j] <= s[s.len() - 1]);
            }
        }
    }
}

/// Any split point of a sorted sequence around `k` is `route`.
pub proof fn lemma_route_unique(s: Seq<i64>, k: int, r: int)
    requires
        sorted(s),
        0 <= r <= s.len(),
        forall|j: int| 0 <= j < r ==> #[trigger] s[j] <= k,
        forall|j: int| r <= j < s.len() ==> #[trigger] s[j] > k,
    ensures
        route(s, k) == r,
{
    lemma_route(s, k);
    let q = route(s, k);
    if q < r {
        assert(s[q] <= k);
    } else if q > r {
        assert(s[r] > k);
    }
}


/// Every position of a well-formed subtree is a position of the arena, and
/// the subtree contains its root.
pub proof fn lemma_reach<V>(a: Seq<Node<V>>, id: int, h: nat, lo: int, hi: int)
    requires
        wf_node(a, id, h, lo, hi),
    ensures
        reach(a, id, h).contains(id),
        forall|x: int| reach(a, id, h).contains(x) ==> 0 <= x < a.len(),
    decreases h,
{
    if h > 0 && a[id] is Internal {
        let ch = a[id]->children@;
        let keys = a[id]->Internal_keys@;
        lemma_reach_children(a, id, h);
        assert forall|x: int| reach(a, id, h).contains(x) implies 0 <= x < a.len() by {
            if x != id {
                let j = choose|j: int|
                    0 <= j < ch.len() && #[trigger] reach(a, ch[j] as int, (h - 1) as nat).contains(
                        x,
                    );
                lemma_reach(a, ch[j] as int, (h - 1) as nat, child_lo(lo, keys, j), child_hi(keys, hi, j));
            }
        }
    }
}

/// A position lies in the subtrees of a list of nodes iff it lies in the
/// subtree of one of them.
pub proof fn lemma_reach_all<V>(a: Seq<Node<V>>, cs: Seq<NodeId>, h: nat)
    ensures
        forall|x: int|
            #[trigger] reach_all(a, cs, h).contains(x) <==> exists|j: int|
                0 <= j < cs.len() && #[trigger] reach(a, cs[j] as int, h).contains(x),
    decreases cs.len(),
{
    if cs.len() > 0 {
        let t = cs.drop_last();
        lemma_reach_all(a, t, h);
        assert(reach_all(a, cs, h) == reach_all(a, t, h).union(reach(a, cs.last() as int, h)));
        assert forall|x: int| #[trigger] reach_all(a, cs, h).contains(x) <==> exists|j: int|
            0 <= j < cs.len() && #[trigger] reach(a, cs[j] as int, h).contains(x) by {
            if reach_all(a, cs, h).contains(x) {
                if reach_all(a, t, h).contains(x) {
                    let j = choose|j: int| 0 <= j < t.len() && #[trigger] reach(a, t[j] as int, h).contains(x);
                    assert(cs[j] == t[j]);
                    assert(reach(a, cs[j] as int, h).contains(x));
                } else {
                    assert(reach(a, cs.last() as int, h).contains(x));
                    assert(reach(a, cs[cs.len() - 1] as int, h).contains(x));
                }
            }
            if exists|j: int| 0 <= j < cs.len() && #[trigger] reach(a, cs[j] as int, h).contains(x) {
                let j = choose|j: int| 0 <= j < cs.len() && #[trigger] reach(a, cs[j] as int, h).contains(x);
                if j < t.len() {
                    assert(t[j] == cs[j]);
                    assert(reach(a, t[j] as int, h).contains(x));
                    assert(reach_all(a, t, h).contains(x));
                } else {
                    assert(cs[j] == cs.last());
                }
            }
        }
    }
}

/// The subtree of an internal node is the node and the subtrees of its children.
pub proof fn lemma_reach_children<V>(a: Seq<Node<V>>, id: int, h: nat)
    requires
        h > 0,
        0 <= id < a.len(),
        a[id] is Internal,
    ensures
        forall|x: int|
            #[trigger] reach(a, id, h).contains(x) <==> (x == id || exists|j: int|
                0 <= j < a[id]->children@.len() && #[trigger] reach(
                    a,
                    a[id]->children@[j] as int,
                    (h - 1) as nat,
                ).contains(x)),
{
    assert(reach(a, id, h) == set![id].union(reach_all(a, a[id]->children@, (h - 1) as nat)));
    lemma_reach_all(a, a[id]->children@, (h - 1) as nat);
}

/// A subtree depends only on the arena entries at its own positions.
pub proof fn lemma_frame<V>(a1: Seq<Node<V>>, a2: Seq<Node<V>>, id: int, h: nat, lo: int, hi: int)
    requires
        wf_node(a1, id, h, lo, hi),
        forall|x: int| #[trigger]
            reach(a1, id, h).contains(x) ==> 0 <= x < a2.len() && a2[x] == a1[x],
    ensures
        wf_node(a2, id, h, lo, hi),
        reach(a2, id, h) == reach(a1, id, h),
        forall|k: int| #[trigger] lookup(a2, id, h, k) == lookup(a1, id, h, k),
    decreases h, 1nat,
{
    lemma_reach(a1, id, h, lo, hi);
    assert(a2[id] == a1[id]);
    if a1[id] is Internal {
        let ch = a1[id]->children@;
        let keys = a1[id]->Internal_keys@;
        assert(reach(a1, id, h) == set![id].union(reach_all(a1, ch, (h - 1) as nat)));
        assert(reach(a2, id, h) == set![id].union(reach_all(a2, ch, (h - 1) as nat)));
        assert forall|x: int| #[trigger] reach_all(a1, ch, (h - 1) as nat).contains(x) implies 0 <= x < a2.len()
            && a2[x] == a1[x] by {
            assert(reach(a1, id, h).contains(x));
        }
        lemma_children_frame(a1, a2, keys, ch, h, lo, hi);
        assert(reach(a2, id, h) =~= reach(a1, id, h));
        assert forall|k: int| #[trigger] lookup(a2, id, h, k) == lookup(a1, id, h, k) by {
            assert(lookup(a2, id, h, k) == internal_lookup(a2, keys, ch, h, k));
            assert(lookup(a1, id, h, k) == internal_lookup(a1, keys, ch, h, k));
        }
    }
}

/// The children of an internal node depend only on the arena entries at the
/// positions of their subtrees.
pub proof fn lemma_children_frame<V>(
    a1: Seq<Node<V>>,
    a2: Seq<Node<V>>,
    keys: Seq<i64>,
    cs: Seq<NodeId>,
    h: nat,
    lo: int,
    hi: int,
)
    requires
        children_ok(a1, keys, cs, h, lo, hi),
        forall|x: int| #[trigger]
            reach_all(a1, cs, (h - 1) as nat).contains(x) ==> 0 <= x < a2.len() && a2[x] == a1[x],
    ensures
        children_ok(a2, keys, cs, h, lo, hi),
        reach_all(a2, cs, (h - 1) as nat) == reach_all(a1, cs, (h - 1) as nat),
        forall|j: int| 0 <= j < cs.len() ==> reach(a2, #[trigger] cs[j] as int, (h - 1) as nat) == reach(a1, cs[j] as int, (h - 1) as nat),
        forall|k: int| #[trigger] internal_lookup(a2, keys, cs, h, k) == internal_lookup(a1, keys, cs, h, k),
    decreases h, 0nat,
{
    lemma_reach_all(a1, cs, (h - 1) as nat);
    lemma_reach_all(a2, cs, (h - 1) as nat);
    assert forall|j: int| 0 <= j < cs.len() implies {
        &&& wf_node(a2, #[trigger] cs[j] as int, (h - 1) as nat, child_lo(lo, keys, j), child_hi(keys, hi, j))
        &&& reach(a2, cs[j] as int, (h - 1) as nat) == reach(a1, cs[j] as int, (h - 1) as nat)
        &&& forall|k: int| #[trigger] lookup(a2, cs[j] as int, (h - 1) as nat, k) == lookup(a1, cs[j] as int, (h - 1) as nat, k)
    } by {
        assert forall|x: int| #[trigger] reach(a1, cs[j] as int, (h - 1) as nat).contains(x) implies 0 <= x < a2.len() && a2[x] == a1[x] by {
            assert(reach_all(a1, cs, (h - 1) as nat).contains(x));
        }
        lemma_frame(a1, a2, cs[j] as int, (h - 1) as nat, child_lo(lo, keys, j), child_hi(keys, hi, j));
    }
    assert forall|x: int| #[trigger] reach_all(a2, cs, (h - 1) as nat).contains(x) == reach_all(a1, cs, (h - 1) as nat).contains(x) by {
        if reach_all(a1, cs, (h - 1) as nat).contains(x) {
            let j = choose|j: int| 0 <= j < cs.len() && #[trigger] reach(a1, cs[j] as int, (h - 1) as nat).contains(x);
            assert(reach(a2, cs[j] as int, (h - 1) as nat).contains(x));
        }
        if reach_all(a2, cs, (h - 1) as nat).contains(x) {
            let j = choose|j: int| 0 <= j < cs.len() && #[trigger] reach(a2, cs[j] as int, (h - 1) as nat).contains(x);
            assert(reach(a1, cs[j] as int, (h - 1) as nat).contains(x));
        }
    }
    assert(reach_all(a2, cs, (h - 1) as nat) =~= reach_all(a1, cs, (h - 1) as nat));
    assert forall|j1: int, j2: int|
        0 <= j1 < cs.len() && 0 <= j2 < cs.len() && j1 != j2 implies reach(
            a2,
            #[trigger] cs[j1] as int,
            (h - 1) as nat,
        ).disjoint(reach(a2, #[trigger] cs[j2] as int, (h - 1) as nat)) by {
        assert(reach(a1, cs[j1] as int, (h - 1) as nat).disjoint(reach(a1, cs[j2] as int, (h - 1) as nat)));
    }
    assert forall|k: int| #[trigger] internal_lookup(a2, keys, cs, h, k) == internal_lookup(a1, keys, cs, h, k) by {
        lemma_route(keys, k);
        let j = route(keys, k);
        assert(lookup(a2, cs[j] as int, (h - 1) as nat, k) == lookup(a1, cs[j] as int, (h - 1) as nat, k));
    }
}

/// Inserting a new key at its place keeps a leaf sorted and adds exactly
/// that entry.
pub proof fn lemma_leaf_insert<V>(keys: Seq<i64>, values: Seq<V>, p: int, key: i64, value: V)
    requires
        strictly_sorted(keys),
        keys.len() == values.len(),
        p == route(keys, key as int),
        !(0 < p && keys[p - 1] == key),
    ensures
        strictly_sorted(keys.insert(p, key)),
        forall|k: int|
            #[trigger] leaf_find(keys.insert(p, key), values.insert(p, value), k) == if k == key {
                Some(value)
            } else {
                leaf_find(keys, values, k)
            },
{
    lemma_route(keys, key as int);
    let k2 = keys.insert(p, key);
    let v2 = values.insert(p, value);
    assert forall|i: int, j: int| 0 <= i < j < k2.len() implies k2[i] < k2[j] by {
        if j < p {
        } else if j == p {
            if i < p - 1 {
                assert(keys[i] < keys[p - 1]);
            }
        } else if i < p {
            assert(keys[i] <= key);
        } else if i == p {
        } else {
        }
    }
    assert(sorted(k2));
    assert forall|k: int| #[trigger] leaf_find(k2, v2, k) == if k == key {
        Some(value)
    } else {
        leaf_find(keys, values, k)
    } by {
        lemma_route(keys, k);
        let r = route(keys, k);
        if key <= k {
            if r < p {
                assert(keys[r] <= key);
            }
            assert forall|j: int| 0 <= j < r + 1 implies #[trigger] k2[j] <= k by {
                if j < p {
                    assert(keys[j] <= key);
                } else if j > p {
                    assert(keys[j - 1] <= k);
                }
            }
            assert forall|j: int| r + 1 <= j < k2.len() implies #[trigger] k2[j] > k by {
                assert(k2[j] == keys[j - 1]);
            }
            lemma_route_unique(k2, k, r + 1);
            if r > p {
                assert(k2[r] == keys[r - 1]);
                assert(v2[r] == values[r - 1]);
            }
        } else {
            if r > p {
                assert(keys[p] <= k);
            }
            assert forall|j: int| 0 <= j < r implies #[trigger] k2[j] <= k by {
                assert(k2[j] == keys[j]);
            }
            assert forall|j: int| r <= j < k2.len() implies #[trigger] k2[j] > k by {
                if j < p {
                    assert(keys[j] > k);
                } else if j > p {
                    assert(keys[j - 1] > key);
                }
            }
            lemma_route_unique(k2, k, r);
            if r > 0 {
                assert(k2[r - 1] == keys[r - 1]);
                assert(v2[r - 1] == values[r - 1]);
            }
        }
    }
}

/// Replacing the value of a key that a leaf holds changes only that entry.
pub proof fn lemma_leaf_overwrite<V>(keys: Seq<i64>, values: Seq<V>, p: int, key: i64, value: V)
    requires
        strictly_sorted(keys),
        keys.len() == values.len(),
        p == route(keys, key as int),
        0 < p && keys[p - 1] == key,
    ensures
        forall|k: int|
            #[trigger] leaf_find(keys, values.update(p - 1, value), k) == if k == key {
                Some(value)
            } else {
                leaf_find(keys, values, k)
            },
{
    lemma_route(keys, key as int);
    assert forall|k: int| #[trigger] leaf_find(keys, values.update(p - 1, value), k) == if k == key {
        Some(value)
    } else {
        leaf_find(keys, values, k)
    } by {
        lemma_route(keys, k);
        let r = route(keys, k);
        if r > 0 && keys[r - 1] == k && k != key {
            if r - 1 < p - 1 {
                assert(keys[r - 1] < keys[p - 1]);
            } else if r - 1 > p - 1 {
                assert(keys[p - 1] < keys[r - 1]);
            }
        }
    }
}

/// Splitting a sorted leaf at `mid` leaves the keys below `keys[mid]` on the
/// left and the rest on the right.
pub proof fn lemma_leaf_split<V>(keys: Seq<i64>, values: Seq<V>, mid: int)
    requires
        strictly_sorted(keys),
        keys.len() == values.len(),
        0 <= mid < keys.len(),
    ensures
        forall|k: int|
            k < keys[mid] ==> #[trigger] leaf_find(keys.subrange(0, mid), values.subrange(0, mid), k)
                == leaf_find(keys, values, k),
        forall|k: int|
            k >= keys[mid] ==> #[trigger] leaf_find(
                keys.subrange(mid, keys.len() as int),
                values.subrange(mid, values.len() as int),
                k,
            ) == leaf_find(keys, values, k),
{
    let left = keys.subrange(0, mid);
    let right = keys.subrange(mid, keys.len() as int);
    assert forall|k: int| k < keys[mid] implies #[trigger] leaf_find(left, values.subrange(0, mid), k)
        == leaf_find(keys, values, k) by {
        lemma_route(keys, k);
        let r = route(keys, k);
        if r > mid {
            assert(keys[mid] <= k);
        }
        assert(sorted(left));
        assert forall|j: int| 0 <= j < r implies #[trigger] left[j] <= k by {
            assert(left[j] == keys[j]);
        }
        assert forall|j: int| r <= j < left.len() implies #[trigger] left[j] > k by {
            assert(left[j] == keys[j]);
        }
        lemma_route_unique(left, k, r);
    }
    assert forall|k: int| k >= keys[mid] implies #[trigger] leaf_find(
        right,
        values.subrange(mid, values.len() as int),
        k,
    ) == leaf_find(keys, values, k) by {
        lemma_route(keys, k);
        let r = route(keys, k);
        if r <= mid {
            assert(keys[mid] > k);
        }
        assert(sorted(right));
        assert forall|j: int| 0 <= j < r - mid implies #[trigger] right[j] <= k by {
            assert(right[j] == keys[j + mid]);
        }
        assert forall|j: int| r - mid <= j < right.len() implies #[trigger] right[j] > k by {
            assert(right[j] == keys[j + mid]);
        }
        lemma_route_unique(right, k, r - mid);
    }
}

/// The leaves of the subtree of height `h` at `id`, left to right.
pub closed spec fn leaf_seq<V>(a: Seq<Node<V>>, id: int, h: nat) -> Seq<int>
    decreases h, 0nat,
{
    if h > 0 && 0 <= id < a.len() && a[id] is Internal {
        leaf_seq_all(a, a[id]->children@, (h - 1) as nat)
    } else {
        seq![id]
    }
}

/// The leaves of the subtrees of height `h` at the nodes `cs`, left to right.
pub closed spec fn leaf_seq_all<V>(a: Seq<Node<V>>, cs: Seq<NodeId>, h: nat) -> Seq<int>
    decreases h, cs.len(),
{
    if cs.len() == 0 {
        Seq::empty()
    } else {
        leaf_seq_all(a, cs.drop_last(), h) + leaf_seq(a, cs.last() as int, h)
    }
}

/// Node `x` is a leaf whose link to the next leaf is `t`.
pub open spec fn next_is<V>(a: Seq<Node<V>>, x: int, t: Option<int>) -> bool {
    &&& a[x] is Leaf
    &&& match a[x]->next {
        Some(n) => t == Some(n as int),
        None => t is None,
    }
}

/// What leaf `i` of the run `l` must link to when the run is linked to `t`:
/// the next leaf of the run, or `t` after the last one.
pub open spec fn succ(l: Seq<int>, i: int, t: Option<int>) -> Option<int> {
    if i + 1 < l.len() {
        Some(l[i + 1])
    } else {
        t
    }
}

/// The leaves `l` are linked in order, the last one to `t`.
pub open spec fn linked<V>(a: Seq<Node<V>>, l: Seq<int>, t: Option<int>) -> bool {
    forall|i: int| 0 <= i < l.len() ==> #[trigger] next_is(a, l[i], succ(l, i, t))
}

/// The leaves below a list of nodes split at any point into those below
/// each part.
pub proof fn lemma_leaf_seq_all_concat<V>(a: Seq<Node<V>>, x: Seq<NodeId>, y: Seq<NodeId>, h: nat)
    ensures
        leaf_seq_all(a, x + y, h) == leaf_seq_all(a, x, h) + leaf_seq_all(a, y, h),
    decreases y.len(),
{
    if y.len() == 0 {
        assert(x + y =~= x);
        assert(leaf_seq_all(a, y, h) =~= Seq::<int>::empty());
        assert(leaf_seq_all(a, x, h) + leaf_seq_all(a, y, h) =~= leaf_seq_all(a, x, h));
    } else {
        lemma_leaf_seq_all_concat(a, x, y.drop_last(), h);
        assert((x + y).drop_last() =~= x + y.drop_last());
        assert((x + y).last() == y.last());
        assert(leaf_seq_all(a, x + y, h) =~= leaf_seq_all(a, x, h) + leaf_seq_all(a, y, h));
    }
}

/// The leaves below a single node.
pub proof fn lemma_leaf_seq_all_one<V>(a: Seq<Node<V>>, c: NodeId, h: nat)
    ensures
        leaf_seq_all(a, seq![c], h) == leaf_seq(a, c as int, h),
{
    assert(seq![c].drop_last() =~= Seq::<NodeId>::empty());
    assert(leaf_seq_all(a, Seq::<NodeId>::empty(), h) =~= Seq::<int>::empty());
    assert(leaf_seq_all(a, seq![c], h) =~= leaf_seq(a, c as int, h));
}

/// Two runs of leaves are linked one after the other iff the first is
/// linked to the start of the second and the second is linked to `t`.
pub proof fn lemma_linked_concat<V>(a: Seq<Node<V>>, l1: Seq<int>, l2: Seq<int>, t: Option<int>)
    requires
        l2.len() > 0,
    ensures
        linked(a, l1 + l2, t) <==> linked(a, l1, Some(l2[0])) && linked(a, l2, t),
{
    let l = l1 + l2;
    let t1 = Some(l2[0]);
    if linked(a, l, t) {
        assert forall|i: int| 0 <= i < l1.len() implies #[trigger] next_is(a, l1[i], succ(l1, i, t1)) by {
            assert(next_is(a, l[i], succ(l, i, t)));
            assert(l[i] == l1[i]);
            assert(succ(l, i, t) == succ(l1, i, t1));
        }
        assert forall|i: int| 0 <= i < l2.len() implies #[trigger] next_is(a, l2[i], succ(l2, i, t)) by {
            let j = l1.len() + i;
            assert(next_is(a, l[j], succ(l, j, t)));
            assert(l[j] == l2[i]);
            assert(succ(l, j, t) == succ(l2, i, t));
        }
    }
    if linked(a, l1, t1) && linked(a, l2, t) {
        assert forall|i: int| 0 <= i < l.len() implies #[trigger] next_is(a, l[i], succ(l, i, t)) by {
            if i < l1.len() {
                assert(next_is(a, l1[i], succ(l1, i, t1)));
                assert(l[i] == l1[i]);
                assert(succ(l, i, t) == succ(l1, i, t1));
            } else {
                let j = i - l1.len();
                assert(next_is(a, l2[j], succ(l2, j, t)));
                assert(l[i] == l2[j]);
                assert(succ(l, i, t) == succ(l2, j, t));
            }
        }
    }
}

/// A well-formed subtree has at least one leaf, and each of its leaves is a
/// position of the subtree.
pub proof fn lemma_leaf_seq_wf<V>(a: Seq<Node<V>>, id: int, h: nat, lo: int, hi: int)
    requires
        wf_node(a, id, h, lo, hi),
    ensures
        leaf_seq(a, id, h).len() > 0,
        forall|i: int|
            0 <= i < leaf_seq(a, id, h).len() ==> reach(a, id, h).contains(#[trigger] leaf_seq(a, id, h)[i]),
    decreases h, 0nat,
{
    lemma_reach(a, id, h, lo, hi);
    if h > 0 {
        let keys = a[id]->Internal_keys@;
        let cs = a[id]->children@;
        let l = leaf_seq(a, id, h);
        assert(children_ok(a, keys, cs, h, lo, hi));
        lemma_leaf_seq_prefix(a, keys, cs, (h - 1) as nat, lo, hi, cs.len());
        assert(cs.take(cs.len() as int) =~= cs);
        lemma_reach_children(a, id, h);
        assert forall|i: int| 0 <= i < l.len() implies reach(a, id, h).contains(#[trigger] l[i]) by {
            let j = choose|j: int| 0 <= j < cs.len() && reach(a, cs[j] as int, (h - 1) as nat).contains(l[i]);
            assert(reach(a, cs[j] as int, (h - 1) as nat).contains(l[i]));
        }
    }
}

/// The leaves below the first `n` of a list of well-formed nodes: there is
/// at least one when `n > 0`, and each is a position of one of their
/// subtrees.
pub proof fn lemma_leaf_seq_prefix<V>(
    a: Seq<Node<V>>,
    keys: Seq<i64>,
    cs: Seq<NodeId>,
    hc: nat,
    lo: int,
    hi: int,
    n: nat,
)
    requires
        n <= cs.len(),
        forall|j: int|
            0 <= j < n ==> wf_node(a, #[trigger] cs[j] as int, hc, child_lo(lo, keys, j), child_hi(keys, hi, j)),
    ensures
        n > 0 ==> leaf_seq_all(a, cs.take(n as int), hc).len() > 0,
        forall|i: int|
            0 <= i < leaf_seq_all(a, cs.take(n as int), hc).len() ==> exists|j: int|
                0 <= j < n && reach(a, cs[j] as int, hc).contains(
                    #[trigger] leaf_seq_all(a, cs.take(n as int), hc)[i],
                ),
    decreases hc, n,
{
    if n > 0 {
        let m = (n - 1) as nat;
        lemma_leaf_seq_prefix(a, keys, cs, hc, lo, hi, m);
        let c = cs[m as int];
        lemma_leaf_seq_wf(a, c as int, hc, child_lo(lo, keys, m as int), child_hi(keys, hi, m as int));
        let pre = leaf_seq_all(a, cs.take(m as int), hc);
        let last = leaf_seq(a, c as int, hc);
        assert(cs.take(n as int).drop_last() =~= cs.take(m as int));
        assert(cs.take(n as int).last() == c);
        let all = leaf_seq_all(a, cs.take(n as int), hc);
        assert(all == pre + last);
        assert forall|i: int| 0 <= i < all.len() implies exists|j: int|
            0 <= j < n && reach(a, cs[j] as int, hc).contains(#[trigger] all[i]) by {
            if i < pre.len() {
                assert(all[i] == pre[i]);
                let j = choose|j: int| 0 <= j < m && reach(a, cs[j] as int, hc).contains(pre[i]);
                assert(reach(a, cs[j] as int, hc).contains(all[i]));
            } else {
                assert(all[i] == last[i - pre.len()]);
                assert(reach(a, cs[m as int] as int, hc).contains(all[i]));
            }
        }
    } else {
        assert(cs.take(0) =~= Seq::<NodeId>::empty());
    }
}

/// The leaves of a subtree, and whether they are linked, depend only on the
/// arena entries at the positions of the subtree.
pub proof fn lemma_leaf_seq_frame<V>(a1: Seq<Node<V>>, a2: Seq<Node<V>>, id: int, h: nat, lo: int, hi: int)
    requires
        wf_node(a1, id, h, lo, hi),
        forall|x: int| #[trigger]
            reach(a1, id, h).contains(x) ==> 0 <= x < a2.len() && a2[x] == a1[x],
    ensures
        leaf_seq(a2, id, h) == leaf_seq(a1, id, h),
        forall|t: Option<int>| #[trigger]
            linked(a2, leaf_seq(a1, id, h), t) == linked(a1, leaf_seq(a1, id, h), t),
    decreases h, 0nat,
{
    lemma_reach(a1, id, h, lo, hi);
    lemma_leaf_seq_wf(a1, id, h, lo, hi);
    let l = leaf_seq(a1, id, h);
    if h > 0 {
        let keys = a1[id]->Internal_keys@;
        let cs = a1[id]->children@;
        assert(children_ok(a1, keys, cs, h, lo, hi));
        lemma_reach_children(a1, id, h);
        lemma_leaf_seq_frame_prefix(a1, a2, keys, cs, (h - 1) as nat, lo, hi, cs.len(), id, h);
        assert(cs.take(cs.len() as int) =~= cs);
    }
    assert forall|t: Option<int>| #[trigger] linked(a2, l, t) == linked(a1, l, t) by {
        if linked(a1, l, t) {
            assert forall|i: int| 0 <= i < l.len() implies #[trigger] next_is(a2, l[i], succ(l, i, t)) by {
                assert(reach(a1, id, h).contains(l[i]));
                assert(next_is(a1, l[i], succ(l, i, t)));
            }
        }
        if linked(a2, l, t) {
            assert forall|i: int| 0 <= i < l.len() implies #[trigger] next_is(a1, l[i], succ(l, i, t)) by {
                assert(reach(a1, id, h).contains(l[i]));
                assert(next_is(a2, l[i], succ(l, i, t)));
            }
        }
    }
}

/// The leaves below the first `n` children of an internal node depend only
/// on the arena entries at the positions of the node's subtree.
pub proof fn lemma_leaf_seq_frame_prefix<V>(
    a1: Seq<Node<V>>,
    a2: Seq<Node<V>>,
    keys: Seq<i64>,
    cs: Seq<NodeId>,
    hc: nat,
    lo: int,
    hi: int,
    n: nat,
    id: int,
    h: nat,
)
    requires
        n <= cs.len(),
        h == hc + 1,
        forall|j: int|
            0 <= j < n ==> wf_node(a1, #[trigger] cs[j] as int, hc, child_lo(lo, keys, j), child_hi(keys, hi, j)),
        forall|j: int, x: int|
            0 <= j < n && #[trigger] reach(a1, cs[j] as int, hc).contains(x) ==> reach(a1, id, h).contains(x),
        forall|x: int| #[trigger]
            reach(a1, id, h).contains(x) ==> 0 <= x < a2.len() && a2[x] == a1[x],
    ensures
        leaf_seq_all(a2, cs.take(n as int), hc) == leaf_seq_all(a1, cs.take(n as int), hc),
    decreases hc, n,
{
    if n > 0 {
        let m = (n - 1) as nat;
        lemma_leaf_seq_frame_prefix(a1, a2, keys, cs, hc, lo, hi, m, id, h);
        let c = cs[m as int];
        assert forall|x: int| #[trigger] reach(a1, c as int, hc).contains(x) implies 0 <= x < a2.len() && a2[x] == a1[x] by {
            assert(reach(a1, cs[m as int] as int, hc).contains(x));
        }
        lemma_leaf_seq_frame(a1, a2, c as int, hc, child_lo(lo, keys, m as int), child_hi(keys, hi, m as int));
        assert(cs.take(n as int).drop_last() =~= cs.take(m as int));
        assert(cs.take(n as int).last() == c);
    } else {
        assert(cs.take(0) =~= Seq::<NodeId>::empty());
    }
}

/// A run of one leaf is linked to `t` iff that leaf links to `t`.
pub proof fn lemma_linked_one<V>(a: Seq<Node<V>>, x: int, t: Option<int>)
    ensures
        linked(a, seq![x], t) <==> next_is(a, x, t),
{
    let l = seq![x];
    assert(l[0] == x);
    assert(succ(l, 0, t) == t);
    if next_is(a, x, t) {
        assert forall|i: int| 0 <= i < l.len() implies #[trigger] next_is(a, l[i], succ(l, i, t)) by {
            assert(i == 0);
        }
    }
}

/// What inserting into the subtree of height `h` at `id` does to its leaves
/// and their links, going from arena `a0` to arena `a1` with outcome `r`:
/// the subtree keeps its first leaf, and when its leaves were linked in
/// order to `t` they still are; after a split `Some((sep, nid))` the leaves
/// of `id` are linked to the first leaf of `nid`, whose leaves are linked
/// to `t`.
pub open spec fn chain_outcome<V>(
    a0: Seq<Node<V>>,
    a1: Seq<Node<V>>,
    id: int,
    h: nat,
    r: Option<(i64, NodeId)>,
) -> bool {
    &&& leaf_seq(a1, id, h).len() > 0
    &&& leaf_seq(a1, id, h)[0] == leaf_seq(a0, id, h)[0]
    &&& forall|t: Option<int>| #[trigger]
        linked(a0, leaf_seq(a0, id, h), t) ==> match r {
            None => linked(a1, leaf_seq(a1, id, h), t),
            Some((_, nid)) => {
                &&& leaf_seq(a1, nid as int, h).len() > 0
                &&& linked(a1, leaf_seq(a1, id, h), Some(leaf_seq(a1, nid as int, h)[0]))
                &&& linked(a1, leaf_seq(a1, nid as int, h), t)
            },
        }
}

/// The links of a leaf that keeps its link, or that is split into itself
/// and a new leaf `nid` that takes over its link while it links to `nid`.
pub proof fn lemma_chain_leaf<V>(a0: Seq<Node<V>>, a1: Seq<Node<V>>, id: int, r: Option<(i64, NodeId)>)
    requires
        0 <= id < a0.len(),
        0 <= id < a1.len(),
        a0[id] is Leaf,
        a1[id] is Leaf,
        match r {
            None => a1[id]->next == a0[id]->next,
            Some((_, nid)) => {
                &&& 0 <= nid < a1.len()
                &&& a1[id]->next == Some(nid)
                &&& a1[nid as int] is Leaf
                &&& a1[nid as int]->next == a0[id]->next
            },
        },
    ensures
        chain_outcome(a0, a1, id, 0, r),
{
    assert(leaf_seq(a0, id, 0) == seq![id]);
    assert(leaf_seq(a1, id, 0) == seq![id]);
    assert forall|t: Option<int>| #[trigger] linked(a0, leaf_seq(a0, id, 0), t) implies match r {
        None => linked(a1, leaf_seq(a1, id, 0), t),
        Some((_, nid)) => {
            &&& leaf_seq(a1, nid as int, 0).len() > 0
            &&& linked(a1, leaf_seq(a1, id, 0), Some(leaf_seq(a1, nid as int, 0)[0]))
            &&& linked(a1, leaf_seq(a1, nid as int, 0), t)
        },
    } by {
        lemma_linked_one(a0, id, t);
        lemma_linked_one(a1, id, t);
        match r {
            None => {},
            Some((_, nid)) => {
                assert(leaf_seq(a1, nid as int, 0) == seq![nid as int]);
                lemma_linked_one(a1, id, Some(nid as int));
                lemma_linked_one(a1, nid as int, t);
            },
        }
    }
}

/// Where the leaves below child `j` of the nodes `cs` must link to when all
/// their leaves are linked in order to `t`: the first leaf below the next
/// child, or `t` after the last child.
pub open spec fn child_tail<V>(a: Seq<Node<V>>, cs: Seq<NodeId>, hc: nat, j: int, t: Option<int>) -> Option<int> {
    if j + 1 < cs.len() {
        Some(leaf_seq(a, cs[j + 1] as int, hc)[0])
    } else {
        t
    }
}

/// The leaves below a list of well-formed nodes start with the first leaf
/// below the first node, and are linked in order to `t` iff the leaves
/// below each node are linked to the first leaf below the next one, the
/// last to `t`.
pub proof fn lemma_linked_children<V>(
    a: Seq<Node<V>>,
    cs: Seq<NodeId>,
    hc: nat,
    keys: Seq<i64>,
    lo: int,
    hi: int,
    t: Option<int>,
)
    requires
        forall|j: int|
            0 <= j < cs.len() ==> wf_node(a, #[trigger] cs[j] as int, hc, child_lo(lo, keys, j), child_hi(keys, hi, j)),
    ensures
        cs.len() > 0 ==> leaf_seq_all(a, cs, hc).len() > 0 && leaf_seq_all(a, cs, hc)[0] == leaf_seq(
            a,
            cs[0] as int,
            hc,
        )[0],
        linked(a, leaf_seq_all(a, cs, hc), t) <==> forall|j: int|
            0 <= j < cs.len() ==> #[trigger] linked(a, leaf_seq(a, cs[j] as int, hc), child_tail(a, cs, hc, j, t)),
    decreases cs.len(),
{
    if cs.len() == 0 {
        assert(leaf_seq_all(a, cs, hc) =~= Seq::<int>::empty());
        assert(linked(a, Seq::<int>::empty(), t));
    } else {
        let n = cs.len() - 1;
        let init = cs.drop_last();
        let c = cs[n];
        assert(cs.last() == c);
        lemma_leaf_seq_wf(a, c as int, hc, child_lo(lo, keys, n), child_hi(keys, hi, n));
        let lc = leaf_seq(a, c as int, hc);
        let t1 = Some(lc[0]);
        lemma_linked_children(a, init, hc, keys, lo, hi, t1);
        let la = leaf_seq_all(a, init, hc);
        assert(leaf_seq_all(a, cs, hc) == la + lc);
        lemma_linked_concat(a, la, lc, t);
        assert forall|j: int| 0 <= j < init.len() implies child_tail(a, init, hc, j, t1) == child_tail(
            a,
            cs,
            hc,
            j,
            t,
        ) && #[trigger] init[j] == cs[j] by {
            if j + 1 < init.len() {
                assert(init[j + 1] == cs[j + 1]);
            }
        }
        assert(child_tail(a, cs, hc, n, t) == t);
        if linked(a, leaf_seq_all(a, cs, hc), t) {
            assert forall|j: int| 0 <= j < cs.len() implies #[trigger] linked(
                a,
                leaf_seq(a, cs[j] as int, hc),
                child_tail(a, cs, hc, j, t),
            ) by {
                if j < n {
                    assert(init[j] == cs[j]);
                    assert(linked(a, leaf_seq(a, init[j] as int, hc), child_tail(a, init, hc, j, t1)));
                }
            }
        }
        if forall|j: int|
            0 <= j < cs.len() ==> #[trigger] linked(a, leaf_seq(a, cs[j] as int, hc), child_tail(a, cs, hc, j, t)) {
            assert forall|j: int| 0 <= j < init.len() implies #[trigger] linked(
                a,
                leaf_seq(a, init[j] as int, hc),
                child_tail(a, init, hc, j, t1),
            ) by {
                assert(init[j] == cs[j]);
                assert(linked(a, leaf_seq(a, cs[j] as int, hc), child_tail(a, cs, hc, j, t)));
            }
            assert(linked(a, leaf_seq(a, cs[n] as int, hc), child_tail(a, cs, hc, n, t)));
        }
        if init.len() > 0 {
            assert(init[0] == cs[0]);
        } else {
            assert(la =~= Seq::<int>::empty());
            assert(la + lc =~= lc);
        }
    }
}

/// The keys of leaf `x`.
pub open spec fn leaf_keys<V>(a: Seq<Node<V>>, x: int) -> Seq<i64> {
    a[x]->Leaf_keys@
}

/// Every key of a leaf of the run `l` lies in `[lo, hi)`, and each node of
/// the run is a leaf.
pub open spec fn run_within<V>(a: Seq<Node<V>>, l: Seq<int>, lo: int, hi: int) -> bool {
    &&& forall|p: int| 0 <= p < l.len() ==> a[#[trigger] l[p]] is Leaf
    &&& forall|p: int, m: int|
        0 <= p < l.len() && 0 <= m < leaf_keys(a, l[p]).len() ==> lo <= #[trigger] leaf_keys(a, l[p])[m] < hi
}

/// Every key of a leaf of the run `l` is below every key of each leaf
/// after it in the run.
pub open spec fn run_ordered<V>(a: Seq<Node<V>>, l: Seq<int>) -> bool {
    forall|p: int, q: int, m: int, n: int|
        0 <= p < q < l.len() && 0 <= m < leaf_keys(a, l[p]).len() && 0 <= n < leaf_keys(a, l[q]).len()
            ==> #[trigger] leaf_keys(a, l[p])[m] < #[trigger] leaf_keys(a, l[q])[n]
}

/// Two ordered runs, the keys of the first below `mid` and those of the
/// second from `mid` on, make an ordered run.
pub proof fn lemma_run_concat<V>(a: Seq<Node<V>>, l1: Seq<int>, l2: Seq<int>, lo: int, mid: int, hi: int)
    requires
        lo <= mid <= hi,
        run_within(a, l1, lo, mid),
        run_within(a, l2, mid, hi),
        run_ordered(a, l1),
        run_ordered(a, l2),
    ensures
        run_within(a, l1 + l2, lo, hi),
        run_ordered(a, l1 + l2),
{
    let l = l1 + l2;
    assert forall|p: int| 0 <= p < l.len() implies a[#[trigger] l[p]] is Leaf by {
        if p < l1.len() {
            assert(l[p] == l1[p]);
        } else {
            assert(l[p] == l2[p - l1.len()]);
        }
    }
    assert forall|p: int, m: int| 0 <= p < l.len() && 0 <= m < leaf_keys(a, l[p]).len() implies lo
        <= #[trigger] leaf_keys(a, l[p])[m] < hi by {
        if p < l1.len() {
            assert(l[p] == l1[p]);
            assert(lo <= leaf_keys(a, l1[p])[m] < mid);
        } else {
            assert(l[p] == l2[p - l1.len()]);
            assert(mid <= leaf_keys(a, l2[p - l1.len()])[m] < hi);
        }
    }
    assert forall|p: int, q: int, m: int, n: int|
        0 <= p < q < l.len() && 0 <= m < leaf_keys(a, l[p]).len() && 0 <= n < leaf_keys(a, l[q]).len()
        implies #[trigger] leaf_keys(a, l[p])[m] < #[trigger] leaf_keys(a, l[q])[n] by {
        if q < l1.len() {
            assert(l[p] == l1[p] && l[q] == l1[q]);
            assert(leaf_keys(a, l1[p])[m] < leaf_keys(a, l1[q])[n]);
        } else if p >= l1.len() {
            assert(l[p] == l2[p - l1.len()] && l[q] == l2[q - l1.len()]);
            assert(leaf_keys(a, l2[p - l1.len()])[m] < leaf_keys(a, l2[q - l1.len()])[n]);
        } else {
            assert(l[p] == l1[p] && l[q] == l2[q - l1.len()]);
            assert(leaf_keys(a, l1[p])[m] < mid);
            assert(mid <= leaf_keys(a, l2[q - l1.len()])[n]);
        }
    }
}

/// The leaves of a well-formed subtree for `[lo, hi)`, left to right, hold
/// keys in `[lo, hi)`, each leaf's keys below those of the leaves after it.
pub proof fn lemma_leaf_order<V>(a: Seq<Node<V>>, id: int, h: nat, lo: int, hi: int)
    requires
        wf_node(a, id, h, lo, hi),
        lo <= hi,
    ensures
        run_within(a, leaf_seq(a, id, h), lo, hi),
        run_ordered(a, leaf_seq(a, id, h)),
    decreases h, 0nat,
{
    let l = leaf_seq(a, id, h);
    if h > 0 {
        let keys = a[id]->Internal_keys@;
        let cs = a[id]->children@;
        assert(children_ok(a, keys, cs, h, lo, hi));
        lemma_leaf_order_prefix(a, keys, cs, (h - 1) as nat, lo, hi, cs.len());
        assert(cs.take(cs.len() as int) =~= cs);
        assert(child_hi(keys, hi, cs.len() - 1) == hi);
    } else {
        assert(l == seq![id]);
        assert(l[0] == id);
        assert(a[id] is Leaf);
    }
}

/// The leaves below the first `n` children of an internal node for
/// `[lo, hi)` with separators `keys`, left to right, hold keys from `lo` to
/// below the upper bound of child `n - 1`, each leaf's keys below those of
/// the leaves after it.
pub proof fn lemma_leaf_order_prefix<V>(
    a: Seq<Node<V>>,
    keys: Seq<i64>,
    cs: Seq<NodeId>,
    hc: nat,
    lo: int,
    hi: int,
    n: nat,
)
    requires
        lo <= hi,
        n <= cs.len(),
        cs.len() == keys.len() + 1,
        sorted(keys),
        forall|j: int| 0 <= j < keys.len() ==> lo <= #[trigger] keys[j] <= hi,
        forall|j: int|
            0 <= j < n ==> wf_node(a, #[trigger] cs[j] as int, hc, child_lo(lo, keys, j), child_hi(keys, hi, j)),
    ensures
        run_within(a, leaf_seq_all(a, cs.take(n as int), hc), lo, if n > 0 {
            child_hi(keys, hi, n - 1)
        } else {
            lo
        }),
        run_ordered(a, leaf_seq_all(a, cs.take(n as int), hc)),
    decreases hc, n,
{
    if n > 0 {
        let m = (n - 1) as nat;
        lemma_leaf_order_prefix(a, keys, cs, hc, lo, hi, m);
        let c = cs[m as int];
        let clo = child_lo(lo, keys, m as int);
        let chi = child_hi(keys, hi, m as int);
        lemma_leaf_order(a, c as int, hc, clo, chi);
        let pre = leaf_seq_all(a, cs.take(m as int), hc);
        let last = leaf_seq(a, c as int, hc);
        assert(cs.take(n as int).drop_last() =~= cs.take(m as int));
        assert(cs.take(n as int).last() == c);
        assert(leaf_seq_all(a, cs.take(n as int), hc) == pre + last);
        let pre_hi = if m > 0 {
            child_hi(keys, hi, m - 1)
        } else {
            lo
        };
        assert(pre_hi == clo);
        assert(lo <= clo);
        if 0 < m && m < keys.len() {
            assert(keys[m - 1] <= keys[m as int]);
        }
        assert(clo <= chi);
        lemma_run_concat(a, pre, last, lo, clo, chi);
    } else {
        assert(cs.take(0) =~= Seq::<NodeId>::empty());
        assert(leaf_seq_all(a, cs.take(0), hc) =~= Seq::<int>::empty());
    }
}

/// The positions that a search for `k` passes through in the subtree of
/// height `h` at `id`, down to a leaf.
pub open spec fn path<V>(a: Seq<Node<V>>, id: int, h: nat, k: int) -> Set<int>
    decreases h,
{
    if h > 0 && 0 <= id < a.len() && a[id] is Internal {
        set![id].union(
            path(a, a[id]->children@[route(a[id]->Internal_keys@, k)] as int, (h - 1) as nat, k),
        )
    } else {
        set![id]
    }
}

/// `n` is a leaf with keys `k`, values `v` and link `nx`.
pub open spec fn leaf_is<V>(n: Node<V>, k: Seq<i64>, v: Seq<V>, nx: Option<NodeId>) -> bool {
    n matches Node::Leaf { keys, values, next } && keys@ == k && values@ == v && next == nx
}

/// `n` is an internal node with separators `k` and children `c`.
pub open spec fn internal_is<V>(n: Node<V>, k: Seq<i64>, c: Seq<NodeId>) -> bool {
    n matches Node::Internal { keys, children } && keys@ == k && children@ == c
}

/// How an internal node with separators `keys` and children `cs` at `id`
/// takes the separator `csep` and the new node `cnid` of its split child
/// `i`, as it stands in arena `a1`, with outcome `r`: both go in after the
/// child; if the node then holds more than `order` keys, it keeps the first
/// `order / 2` keys and the children around them, the key after them goes
/// up as the separator, and the rest go to a new node at the end of `a1`.
pub open spec fn link_layout<V>(
    keys: Seq<i64>,
    cs: Seq<NodeId>,
    i: int,
    csep: i64,
    cnid: NodeId,
    a1: Seq<Node<V>>,
    id: int,
    order: int,
    r: Option<(i64, NodeId)>,
) -> bool {
    let k1 = keys.insert(i, csep);
    let c1 = cs.insert(i + 1, cnid);
    let last = a1.len() - 1;
    let mid = order / 2;
    if k1.len() <= order {
        r is None && internal_is(a1[id], k1, c1)
    } else {
        &&& r == Some((k1[mid], last as NodeId))
        &&& internal_is(a1[id], k1.subrange(0, mid), c1.subrange(0, mid + 1))
        &&& internal_is(a1[last], k1.subrange(mid + 1, k1.len() as int), c1.subrange(mid + 1, c1.len() as int))
    }
}

/// What inserting `key` and `value` below the node at `id` does to that
/// node, going from arena `a0` to arena `a1` with outcome `r`, for a tree
/// that splits nodes above `order` keys.  A leaf overwrites the value of a
/// key it holds, or takes the entry at its place; if it then holds more than
/// `order` entries it keeps the first `order / 2`, links to a new leaf at
/// the end of `a1` that takes the rest and its old link, and the new leaf's
/// first key goes up as the separator.  An internal node is unchanged when
/// its child did not split, and otherwise takes the child's separator and
/// new node as [`link_layout`] says.
pub open spec fn node_layout<V>(
    a0: Seq<Node<V>>,
    a1: Seq<Node<V>>,
    id: int,
    key: i64,
    value: V,
    order: int,
    r: Option<(i64, NodeId)>,
) -> bool {
    let last = a1.len() - 1;
    let mid = order / 2;
    match a0[id] {
        Node::Leaf { keys, values, next } => {
            let p = route(keys@, key as int);
            if 0 < p && keys@[p - 1] == key {
                r is None && leaf_is(a1[id], keys@, values@.update(p - 1, value), next)
            } else {
                let k1 = keys@.insert(p, key);
                let v1 = values@.insert(p, value);
                if k1.len() <= order {
                    r is None && leaf_is(a1[id], k1, v1, next)
                } else {
                    &&& r == Some((k1[mid], last as NodeId))
                    &&& leaf_is(a1[id], k1.subrange(0, mid), v1.subrange(0, mid), Some(last as NodeId))
                    &&& leaf_is(
                        a1[last],
                        k1.subrange(mid, k1.len() as int),
                        v1.subrange(mid, v1.len() as int),
                        next,
                    )
                }
            }
        },
        Node::Internal { keys, children } => {
            ||| (r is None && a1[id] == a0[id])
            ||| exists|csep: i64, cnid: NodeId| #[trigger]
                link_layout(keys@, children@, route(keys@, key as int), csep, cnid, a1, id, order, r)
        },
    }
}

/// How the leaf `n` at `id` takes `key` and `value`, as it stands in arena
/// `a1` with outcome `r`, for a tree that splits nodes above `order` keys
/// and whose arena had `n0` nodes before: a key it holds gets the new
/// value, and otherwise the entry goes in at its place; if the leaf then
/// holds more than `order` entries it keeps the first `order / 2`, and the
/// rest, with its old link, go to the new leaf `nid` named in `r` (a new
/// position of the arena), to which it links, and whose first key is the
/// separator in `r`.
pub open spec fn leaf_layout_at<V>(
    n: Node<V>,
    n0: nat,
    a1: Seq<Node<V>>,
    id: int,
    key: i64,
    value: V,
    order: int,
    r: Option<(i64, NodeId)>,
) -> bool {
    let mid = order / 2;
    match n {
        Node::Leaf { keys, values, next } => {
            let p = route(keys@, key as int);
            if 0 < p && keys@[p - 1] == key {
                r is None && leaf_is(a1[id], keys@, values@.update(p - 1, value), next)
            } else {
                let k1 = keys@.insert(p, key);
                let v1 = values@.insert(p, value);
                if k1.len() <= order {
                    r is None && leaf_is(a1[id], k1, v1, next)
                } else {
                    r matches Some((sep, nid)) && {
                        &&& sep == k1[mid]
                        &&& n0 <= nid < a1.len()
                        &&& leaf_is(a1[id], k1.subrange(0, mid), v1.subrange(0, mid), Some(nid))
                        &&& leaf_is(
                            a1[nid as int],
                            k1.subrange(mid, k1.len() as int),
                            v1.subrange(mid, v1.len() as int),
                            next,
                        )
                    }
                }
            }
        },
        Node::Internal { .. } => false,
    }
}

/// How an internal node with separators `keys` and children `cs` at `id`
/// takes the separator `csep` and the new node `cnid` of its split child
/// `i`, as it stands in arena `a1` with outcome `r`, the arena having had
/// `n0` nodes before: as [`link_layout`] says, with the new node the one
/// named in `r`, at a new position of the arena.
pub open spec fn link_layout_at<V>(
    keys: Seq<i64>,
    cs: Seq<NodeId>,
    i: int,
    csep: i64,
    cnid: NodeId,
    n0: nat,
    a1: Seq<Node<V>>,
    id: int,
    order: int,
    r: Option<(i64, NodeId)>,
) -> bool {
    let k1 = keys.insert(i, csep);
    let c1 = cs.insert(i + 1, cnid);
    let mid = order / 2;
    if k1.len() <= order {
        r is None && internal_is(a1[id], k1, c1)
    } else {
        r matches Some((sep, nid)) && {
            &&& sep == k1[mid]
            &&& n0 <= nid < a1.len()
            &&& internal_is(a1[id], k1.subrange(0, mid), c1.subrange(0, mid + 1))
            &&& internal_is(a1[nid as int], k1.subrange(mid + 1, k1.len() as int), c1.subrange(mid + 1, c1.len() as int))
        }
    }
}

/// What inserting `key` and `value` below the node at `id` (height `h`)
/// does to every node on the search path, going from arena `a0` to arena
/// `a1`, for a tree that splits nodes above `order` keys; `rs[j]` is the
/// outcome at the node of height `j` on the path, `rs[h]` that at `id`.
/// The leaf changes as [`leaf_layout_at`] says; each internal node on the
/// path is unchanged when the child below it on the path did not split,
/// and otherwise takes that child's separator and new node as
/// [`link_layout_at`] says.
pub open spec fn path_layout<V>(
    a0: Seq<Node<V>>,
    a1: Seq<Node<V>>,
    id: int,
    h: nat,
    key: i64,
    value: V,
    order: int,
    rs: Seq<Option<(i64, NodeId)>>,
) -> bool
    decreases h,
{
    &&& rs.len() == h + 1
    &&& if a0[id] is Leaf {
        leaf_layout_at(a0[id], a0.len(), a1, id, key, value, order, rs[h as int])
    } else {
        let keys = a0[id]->Internal_keys@;
        let cs = a0[id]->children@;
        let i = route(keys, key as int);
        &&& h > 0
        &&& path_layout(a0, a1, cs[i] as int, (h - 1) as nat, key, value, order, rs.take(h as int))
        &&& match rs[h - 1] {
            None => rs[h as int] is None && a1[id] == a0[id],
            Some((csep, cnid)) => link_layout_at(keys, cs, i, csep, cnid, a0.len(), a1, id, order, rs[h as int]),
        }
    }
}

/// The layout along the search path reads only the nodes on the path and
/// the new positions it names: it holds as well in an arena that differs
/// at most at a position `z` of the old arena off the path, and past the
/// end.
pub proof fn lemma_path_layout_frame<V>(
    a0: Seq<Node<V>>,
    x: Seq<Node<V>>,
    y: Seq<Node<V>>,
    id: int,
    h: nat,
    key: i64,
    value: V,
    order: int,
    rs: Seq<Option<(i64, NodeId)>>,
    z: int,
)
    requires
        path_layout(a0, x, id, h, key, value, order, rs),
        z < a0.len(),
        !path(a0, id, h, key as int).contains(z),
        forall|p: int| #[trigger] path(a0, id, h, key as int).contains(p) ==> 0 <= p < a0.len(),
        a0.len() <= x.len() <= y.len(),
        forall|p: int| 0 <= p < x.len() && p != z ==> #[trigger] y[p] == x[p],
    ensures
        path_layout(a0, y, id, h, key, value, order, rs),
    decreases h,
{
    assert(path(a0, id, h, key as int).contains(id));
    assert(y[id] == x[id]);
    if let Some((_, nid)) = rs[h as int] {
        if a0.len() <= nid < x.len() {
            assert(y[nid as int] == x[nid as int]);
        }
    }
    if !(a0[id] is Leaf) {
        let keys = a0[id]->Internal_keys@;
        let cs = a0[id]->children@;
        let i = route(keys, key as int);
        let c = cs[i] as int;
        assert(path(a0, id, h, key as int) == set![id].union(path(a0, c, (h - 1) as nat, key as int)));
        assert forall|p: int| #[trigger] path(a0, c, (h - 1) as nat, key as int).contains(p) implies 0 <= p < a0.len() by {
            assert(path(a0, id, h, key as int).contains(p));
        }
        lemma_path_layout_frame(a0, x, y, c, (h - 1) as nat, key, value, order, rs.take(h as int), z);
    }
}

/// The search path in a well-formed subtree lies within the subtree.
pub proof fn lemma_path_in_reach<V>(a: Seq<Node<V>>, id: int, h: nat, lo: int, hi: int, k: int)
    requires
        wf_node(a, id, h, lo, hi),
    ensures
        forall|p: int| #[trigger] path(a, id, h, k).contains(p) ==> reach(a, id, h).contains(p),
    decreases h,
{
    lemma_reach(a, id, h, lo, hi);
    if h > 0 {
        let keys = a[id]->Internal_keys@;
        let cs = a[id]->children@;
        let i = route(keys, k);
        lemma_route(keys, k);
        assert(children_ok(a, keys, cs, h, lo, hi));
        let c = cs[i] as int;
        lemma_path_in_reach(a, c, (h - 1) as nat, child_lo(lo, keys, i), child_hi(keys, hi, i), k);
        lemma_reach_children(a, id, h);
        assert forall|p: int| #[trigger] path(a, id, h, k).contains(p) implies reach(a, id, h).contains(p) by {
            if p != id {
                assert(path(a, c, (h - 1) as nat, k).contains(p));
                assert(reach(a, cs[i] as int, (h - 1) as nat).contains(p));
            }
        }
    }
}

/// What inserting `key` and `value` into the subtree of height `h` at `id`
/// (bounds `lo`, `hi`) leaves, going from arena `a0` to arena `a1` with
/// outcome `r`: positions outside the subtree keep their nodes; without a
/// split the subtree maps `key` to `value` and keeps every other key; with a
/// split `Some((sep, nid))` the keys below `sep` stay at `id` and the others
/// move to the new node `nid`, together mapping `key` to `value` and keeping
/// every other key.
pub open spec fn insert_outcome<V>(
    a0: Seq<Node<V>>,
    a1: Seq<Node<V>>,
    id: int,
    h: nat,
    lo: int,
    hi: int,
    key: i64,
    value: V,
    r: Option<(i64, NodeId)>,
) -> bool {
    &&& a0.len() <= a1.len()
    &&& forall|x: int|
        0 <= x < a0.len() && !#[trigger] reach(a0, id, h).contains(x) ==> a1[x] == a0[x]
    &&& match r {
        None => {
            &&& wf_node(a1, id, h, lo, hi)
            &&& forall|x: int| #[trigger]
                reach(a1, id, h).contains(x) ==> reach(a0, id, h).contains(x) || a0.len() <= x
                    < a1.len()
            &&& forall|k: int| #[trigger]
                lookup(a1, id, h, k) == if k == key {
                    Some(value)
                } else {
                    lookup(a0, id, h, k)
                }
        },
        Some((sep, nid)) => {
            &&& lo <= sep <= hi
            &&& a0.len() <= nid < a1.len()
            &&& wf_node(a1, id, h, lo, sep as int)
            &&& wf_node(a1, nid as int, h, sep as int, hi)
            &&& forall|x: int| #[trigger]
                reach(a1, id, h).contains(x) ==> reach(a0, id, h).contains(x) || a0.len() <= x
                    < a1.len()
            &&& forall|x: int| #[trigger]
                reach(a1, nid as int, h).contains(x) ==> reach(a0, id, h).contains(x) || a0.len()
                    <= x < a1.len()
            &&& reach(a1, id, h).disjoint(reach(a1, nid as int, h))
            &&& forall|k: int|
                (if k < sep {
                    lookup(a1, id, h, k)
                } else {
                    lookup(a1, nid as int, h, k)
                }) == if k == key {
                    Some(value)
                } else {
                    #[trigger] lookup(a0, id, h, k)
                }
        },
    }
}

/// Where a search goes after a separator is inserted at position `i`.
pub proof fn lemma_route_insert(keys: Seq<i64>, i: int, sep: i64, k: int)
    requires
        sorted(keys),
        0 <= i <= keys.len(),
        i == 0 || keys[i - 1] <= sep,
        i == keys.len() || sep <= keys[i],
    ensures
        sorted(keys.insert(i, sep)),
        route(keys.insert(i, sep), k) == if route(keys, k) < i {
            route(keys, k)
        } else if route(keys, k) > i {
            route(keys, k) + 1
        } else if sep <= k {
            i + 1
        } else {
            i as int
        },
{
    let k2 = keys.insert(i, sep);
    assert forall|a: int, b: int| 0 <= a < b < k2.len() implies k2[a] <= k2[b] by {
        if a < i && b == i {
            assert(keys[a] <= keys[i - 1]);
        } else if a == i && b > i {
            assert(keys[i] <= keys[b - 1]);
        } else if a < i && b > i {
            assert(keys[a] <= keys[b - 1]);
        } else if b < i {
            assert(keys[a] <= keys[b]);
        } else if a > i {
            assert(keys[a - 1] <= keys[b - 1]);
        }
    }
    lemma_route(keys, k);
    let r = route(keys, k);
    let r2 = if r < i {
        r
    } else if r > i {
        r + 1
    } else if sep <= k {
        i + 1
    } else {
        i as int
    };
    assert forall|j: int| 0 <= j < r2 implies #[trigger] k2[j] <= k by {
        if j < i {
            assert(k2[j] == keys[j]);
        } else if j > i {
            assert(k2[j] == keys[j - 1]);
        } else if r > i {
            assert(keys[i] <= k);
        }
    }
    assert forall|j: int| r2 <= j < k2.len() implies #[trigger] k2[j] > k by {
        if j < i {
            assert(k2[j] == keys[j]);
        } else if j > i {
            assert(k2[j] == keys[j - 1]);
        } else if r < i {
            assert(keys[i - 1] > k);
        }
    }
    lemma_route_unique(k2, k, r2);
}

/// Where a search goes after a node is split at separator `keys[mid]`.
pub proof fn lemma_route_split(keys: Seq<i64>, mid: int, k: int)
    requires
        sorted(keys),
        0 <= mid < keys.len(),
    ensures
        k < keys[mid] ==> route(keys, k) <= mid && route(keys.subrange(0, mid), k) == route(keys, k),
        k >= keys[mid] ==> route(keys, k) > mid && route(keys.subrange(mid + 1, keys.len() as int), k)
            == route(keys, k) - (mid + 1),
{
    lemma_route(keys, k);
    let r = route(keys, k);
    let left = keys.subrange(0, mid);
    let right = keys.subrange(mid + 1, keys.len() as int);
    if k < keys[mid] {
        assert forall|j: int| 0 <= j < r implies #[trigger] left[j] <= k by {
            assert(left[j] == keys[j]);
        }
        assert forall|j: int| r <= j < left.len() implies #[trigger] left[j] > k by {
            assert(left[j] == keys[j]);
        }
        lemma_route_unique(left, k, r);
    } else {
        assert forall|j: int| 0 <= j < r - (mid + 1) implies #[trigger] right[j] <= k by {
            assert(right[j] == keys[j + mid + 1]);
        }
        assert forall|j: int| r - (mid + 1) <= j < right.len() implies #[trigger] right[j] > k by {
            assert(right[j] == keys[j + mid + 1]);
        }
        lemma_route_unique(right, k, r - (mid + 1));
    }
}

/// Facts about the children of a well-formed internal node: every position
/// of their subtrees is a position of the arena.
pub proof fn lemma_children_reach<V>(a: Seq<Node<V>>, keys: Seq<i64>, cs: Seq<NodeId>, h: nat, lo: int, hi: int)
    requires
        children_ok(a, keys, cs, h, lo, hi),
    ensures
        forall|x: int| #[trigger] reach_all(a, cs, (h - 1) as nat).contains(x) ==> 0 <= x < a.len(),
        forall|j: int, x: int|
            0 <= j < cs.len() && #[trigger] reach(a, cs[j] as int, (h - 1) as nat).contains(x) ==> 0 <= x
                < a.len(),
        forall|j: int| 0 <= j < cs.len() ==> #[trigger] reach(a, cs[j] as int, (h - 1) as nat).contains(cs[j] as int),
{
    lemma_reach_all(a, cs, (h - 1) as nat);
    assert forall|j: int| 0 <= j < cs.len() implies (forall|x: int| #[trigger] reach(a, cs[j] as int, (h - 1) as nat).contains(x) ==> 0 <= x
        < a.len()) && reach(a, cs[j] as int, (h - 1) as nat).contains(cs[j] as int) by {
        lemma_reach(a, cs[j] as int, (h - 1) as nat, child_lo(lo, keys, j), child_hi(keys, hi, j));
    }
}

/// Inserting into child `i` without a split keeps the children consistent.
pub proof fn lemma_children_update<V>(
    a0: Seq<Node<V>>,
    a1: Seq<Node<V>>,
    keys: Seq<i64>,
    cs: Seq<NodeId>,
    h: nat,
    lo: int,
    hi: int,
    i: int,
    key: i64,
    value: V,
)
    requires
        children_ok(a0, keys, cs, h, lo, hi),
        i == route(keys, key as int),
        insert_outcome(a0, a1, cs[i] as int, (h - 1) as nat, child_lo(lo, keys, i), child_hi(keys, hi, i), key, value, None),
    ensures
        children_ok(a1, keys, cs, h, lo, hi),
        forall|x: int| #[trigger] reach_all(a1, cs, (h - 1) as nat).contains(x) ==> reach_all(a0, cs, (h - 1) as nat).contains(x)
            || a0.len() <= x < a1.len(),
        forall|k: int| #[trigger] internal_lookup(a1, keys, cs, h, k) == if k == key {
            Some(value)
        } else {
            internal_lookup(a0, keys, cs, h, k)
        },
{
    let hc = (h - 1) as nat;
    let c = cs[i] as int;
    lemma_route(keys, key as int);
    lemma_children_reach(a0, keys, cs, h, lo, hi);
    lemma_reach_all(a0, cs, hc);
    lemma_reach_all(a1, cs, hc);
    assert forall|j: int| 0 <= j < cs.len() && j != i implies {
        &&& wf_node(a1, #[trigger] cs[j] as int, hc, child_lo(lo, keys, j), child_hi(keys, hi, j))
        &&& reach(a1, cs[j] as int, hc) == reach(a0, cs[j] as int, hc)
        &&& forall|k: int| #[trigger] lookup(a1, cs[j] as int, hc, k) == lookup(a0, cs[j] as int, hc, k)
    } by {
        assert(reach(a0, cs[j] as int, hc).disjoint(reach(a0, c, hc)));
        assert forall|x: int| #[trigger] reach(a0, cs[j] as int, hc).contains(x) implies 0 <= x < a1.len() && a1[x] == a0[x] by {
            assert(!reach(a0, c, hc).contains(x));
        }
        lemma_frame(a0, a1, cs[j] as int, hc, child_lo(lo, keys, j), child_hi(keys, hi, j));
    }
    assert forall|j1: int, j2: int|
        0 <= j1 < cs.len() && 0 <= j2 < cs.len() && j1 != j2 implies reach(
            a1,
            #[trigger] cs[j1] as int,
            hc,
        ).disjoint(reach(a1, #[trigger] cs[j2] as int, hc)) by {
        assert(reach(a0, cs[j1] as int, hc).disjoint(reach(a0, cs[j2] as int, hc)));
    }
    assert forall|x: int| #[trigger] reach_all(a1, cs, hc).contains(x) implies reach_all(a0, cs, hc).contains(x)
        || a0.len() <= x < a1.len() by {
        let j = choose|j: int| 0 <= j < cs.len() && #[trigger] reach(a1, cs[j] as int, hc).contains(x);
        if j != i {
            assert(reach(a0, cs[j] as int, hc).contains(x));
        } else if reach(a0, c, hc).contains(x) {
            assert(reach(a0, cs[i] as int, hc).contains(x));
        }
    }
    assert forall|k: int| #[trigger] internal_lookup(a1, keys, cs, h, k) == if k == key {
        Some(value)
    } else {
        internal_lookup(a0, keys, cs, h, k)
    } by {
        lemma_route(keys, k);
        let r = route(keys, k);
        if r != i {
            assert(lookup(a1, cs[r] as int, hc, k) == lookup(a0, cs[r] as int, hc, k));
        } else {
            assert(lookup(a1, c, hc, k) == if k == key { Some(value) } else { lookup(a0, c, hc, k) });
        }
    }
}

#[verifier::rlimit(80)]
#[verifier::spinoff_prover]
/// Inserting into child `i` with a split into `cs[i]` and `nid` around `sep`
/// gives a consistent node once `sep` and `nid` are inserted after position
/// `i`.
pub proof fn lemma_children_insert<V>(
    a0: Seq<Node<V>>,
    a1: Seq<Node<V>>,
    keys: Seq<i64>,
    cs: Seq<NodeId>,
    h: nat,
    lo: int,
    hi: int,
    i: int,
    key: i64,
    value: V,
    sep: i64,
    nid: NodeId,
)
    requires
        children_ok(a0, keys, cs, h, lo, hi),
        i == route(keys, key as int),
        insert_outcome(a0, a1, cs[i] as int, (h - 1) as nat, child_lo(lo, keys, i), child_hi(keys, hi, i), key, value, Some((sep, nid))),
    ensures
        children_ok(a1, keys.insert(i, sep), cs.insert(i + 1, nid), h, lo, hi),
        forall|x: int| #[trigger] reach_all(a1, cs.insert(i + 1, nid), (h - 1) as nat).contains(x) ==> reach_all(a0, cs, (h - 1) as nat).contains(x)
            || a0.len() <= x < a1.len(),
        forall|k: int| #[trigger] internal_lookup(a1, keys.insert(i, sep), cs.insert(i + 1, nid), h, k) == if k == key {
            Some(value)
        } else {
            internal_lookup(a0, keys, cs, h, k)
        },
{
    let hc = (h - 1) as nat;
    let c = cs[i] as int;
    let k2 = keys.insert(i, sep);
    let c2 = cs.insert(i + 1, nid);
    lemma_route(keys, key as int);
    lemma_children_reach(a0, keys, cs, h, lo, hi);
    lemma_reach_all(a0, cs, hc);
    lemma_reach_all(a1, c2, hc);
    lemma_route_insert(keys, i, sep, lo);
    assert(sorted(k2));
    assert forall|j: int| 0 <= j < k2.len() implies lo <= #[trigger] k2[j] <= hi by {
        if j < i {
            assert(k2[j] == keys[j]);
        } else if j > i {
            assert(k2[j] == keys[j - 1]);
        }
    }
    // children other than the one that was split are untouched
    assert forall|j: int| 0 <= j < cs.len() && j != i implies {
        &&& wf_node(a1, #[trigger] cs[j] as int, hc, child_lo(lo, keys, j), child_hi(keys, hi, j))
        &&& reach(a1, cs[j] as int, hc) == reach(a0, cs[j] as int, hc)
        &&& forall|k: int| #[trigger] lookup(a1, cs[j] as int, hc, k) == lookup(a0, cs[j] as int, hc, k)
    } by {
        assert(reach(a0, cs[j] as int, hc).disjoint(reach(a0, c, hc)));
        assert forall|x: int| #[trigger] reach(a0, cs[j] as int, hc).contains(x) implies 0 <= x < a1.len() && a1[x] == a0[x] by {
            assert(!reach(a0, c, hc).contains(x));
        }
        lemma_frame(a0, a1, cs[j] as int, hc, child_lo(lo, keys, j), child_hi(keys, hi, j));
    }
    // each new child with its bounds
    assert forall|j: int| 0 <= j < c2.len() implies wf_node(
        a1,
        #[trigger] c2[j] as int,
        hc,
        child_lo(lo, k2, j),
        child_hi(k2, hi, j),
    ) by {
        if j < i {
            assert(c2[j] == cs[j]);
            if j > 0 {
                assert(k2[j - 1] == keys[j - 1]);
            }
            assert(k2[j] == keys[j]);
        } else if j == i {
            assert(c2[j] == cs[i]);
            if j > 0 {
                assert(k2[j - 1] == keys[j - 1]);
            }
        } else if j == i + 1 {
            if j < k2.len() {
                assert(k2[j] == keys[i]);
            }
        } else {
            assert(c2[j] == cs[j - 1]);
            assert(k2[j - 1] == keys[j - 2]);
            if j < k2.len() {
                assert(k2[j] == keys[j - 1]);
            }
        }
    }
    // positions of the new children's subtrees
    assert forall|j: int, x: int| 0 <= j < c2.len() && #[trigger] reach(a1, c2[j] as int, hc).contains(x) implies
        (if j == i || j == i + 1 { reach(a0, c, hc).contains(x) || a0.len() <= x < a1.len() } else {
            reach(a0, c2[j] as int, hc).contains(x) && x < a0.len() && !reach(a0, c, hc).contains(x)
        }) by {
        if j < i {
            assert(c2[j] == cs[j]);
            assert(reach(a0, cs[j] as int, hc).disjoint(reach(a0, c, hc)));
        } else if j > i + 1 {
            assert(c2[j] == cs[j - 1]);
            assert(reach(a0, cs[j - 1] as int, hc).disjoint(reach(a0, c, hc)));
        }
    }
    assert forall|j1: int, j2: int|
        0 <= j1 < c2.len() && 0 <= j2 < c2.len() && j1 != j2 implies reach(
            a1,
            #[trigger] c2[j1] as int,
            hc,
        ).disjoint(reach(a1, #[trigger] c2[j2] as int, hc)) by {
        assert forall|x: int| !(reach(a1, c2[j1] as int, hc).contains(x) && reach(a1, c2[j2] as int, hc).contains(x)) by {
            if reach(a1, c2[j1] as int, hc).contains(x) && reach(a1, c2[j2] as int, hc).contains(x) {
                let o1 = if j1 <= i { j1 } else { j1 - 1 };
                let o2 = if j2 <= i { j2 } else { j2 - 1 };
                if (j1 == i || j1 == i + 1) && (j2 == i || j2 == i + 1) {
                    assert(reach(a1, c, hc).disjoint(reach(a1, nid as int, hc)));
                } else if j1 == i || j1 == i + 1 {
                    assert(reach(a0, cs[o2] as int, hc).contains(x));
                } else if j2 == i || j2 == i + 1 {
                    assert(reach(a0, cs[o1] as int, hc).contains(x));
                } else {
                    assert(reach(a0, cs[o1] as int, hc).contains(x));
                    assert(reach(a0, cs[o2] as int, hc).contains(x));
                    assert(reach(a0, cs[o1] as int, hc).disjoint(reach(a0, cs[o2] as int, hc)));
                }
            }
        }
    }
    assert(children_ok(a1, k2, c2, h, lo, hi));
    assert forall|x: int| #[trigger] reach_all(a1, c2, hc).contains(x) implies reach_all(a0, cs, hc).contains(x)
        || a0.len() <= x < a1.len() by {
        let j = choose|j: int| 0 <= j < c2.len() && #[trigger] reach(a1, c2[j] as int, hc).contains(x);
        if j == i || j == i + 1 {
            if reach(a0, c, hc).contains(x) {
                assert(reach(a0, cs[i] as int, hc).contains(x));
            }
        } else {
            let o = if j < i { j } else { j - 1 };
            assert(c2[j] == cs[o]);
            assert(reach(a0, cs[o] as int, hc).contains(x));
        }
    }
    assert forall|k: int| #[trigger] internal_lookup(a1, k2, c2, h, k) == if k == key {
        Some(value)
    } else {
        internal_lookup(a0, keys, cs, h, k)
    } by {
        lemma_route(keys, k);
        lemma_route_insert(keys, i, sep, k);
        let r = route(keys, k);
        if r < i {
            assert(c2[r] == cs[r]);
            assert(lookup(a1, cs[r] as int, hc, k) == lookup(a0, cs[r] as int, hc, k));
        } else if r > i {
            assert(c2[r + 1] == cs[r]);
            assert(lookup(a1, cs[r] as int, hc, k) == lookup(a0, cs[r] as int, hc, k));
        } else {
            assert(lookup(a0, c, hc, k) == lookup(a0, c, hc, k));
        }
    }
}

/// Splitting the children of an internal node at separator `keys[mid]`.
pub proof fn lemma_children_split<V>(a: Seq<Node<V>>, keys: Seq<i64>, cs: Seq<NodeId>, h: nat, lo: int, hi: int, mid: int)
    requires
        children_ok(a, keys, cs, h, lo, hi),
        0 <= mid < keys.len(),
    ensures
        lo <= keys[mid] <= hi,
        children_ok(a, keys.subrange(0, mid), cs.subrange(0, mid + 1), h, lo, keys[mid] as int),
        children_ok(
            a,
            keys.subrange(mid + 1, keys.len() as int),
            cs.subrange(mid + 1, cs.len() as int),
            h,
            keys[mid] as int,
            hi,
        ),
        forall|x: int| #[trigger] reach_all(a, cs.subrange(0, mid + 1), (h - 1) as nat).contains(x) ==> reach_all(a, cs, (h - 1) as nat).contains(x),
        forall|x: int| #[trigger] reach_all(a, cs.subrange(mid + 1, cs.len() as int), (h - 1) as nat).contains(x) ==> reach_all(a, cs, (h - 1) as nat).contains(x),
        reach_all(a, cs.subrange(0, mid + 1), (h - 1) as nat).disjoint(reach_all(a, cs.subrange(mid + 1, cs.len() as int), (h - 1) as nat)),
        forall|k: int| k < keys[mid] ==> #[trigger] internal_lookup(a, keys.subrange(0, mid), cs.subrange(0, mid + 1), h, k)
            == internal_lookup(a, keys, cs, h, k),
        forall|k: int| k >= keys[mid] ==> #[trigger] internal_lookup(
            a,
            keys.subrange(mid + 1, keys.len() as int),
            cs.subrange(mid + 1, cs.len() as int),
            h,
            k,
        ) == internal_lookup(a, keys, cs, h, k),
{
    let hc = (h - 1) as nat;
    let sep = keys[mid];
    let kl = keys.subrange(0, mid);
    let cl = cs.subrange(0, mid + 1);
    let kr = keys.subrange(mid + 1, keys.len() as int);
    let cr = cs.subrange(mid + 1, cs.len() as int);
    lemma_reach_all(a, cs, hc);
    lemma_reach_all(a, cl, hc);
    lemma_reach_all(a, cr, hc);
    assert forall|j: int| 0 <= j < kl.len() implies lo <= #[trigger] kl[j] <= sep by {
        assert(kl[j] == keys[j]);
        assert(keys[j] <= keys[mid]);
    }
    assert forall|j: int| 0 <= j < kr.len() implies sep <= #[trigger] kr[j] <= hi by {
        assert(kr[j] == keys[j + mid + 1]);
        assert(keys[mid] <= keys[j + mid + 1]);
    }
    assert forall|j: int| 0 <= j < cl.len() implies wf_node(a, #[trigger] cl[j] as int, hc, child_lo(lo, kl, j), child_hi(kl, sep as int, j)) by {
        assert(cl[j] == cs[j]);
        if j > 0 {
            assert(kl[j - 1] == keys[j - 1]);
        }
        if j < kl.len() {
            assert(kl[j] == keys[j]);
        }
    }
    assert forall|j: int| 0 <= j < cr.len() implies wf_node(a, #[trigger] cr[j] as int, hc, child_lo(sep as int, kr, j), child_hi(kr, hi, j)) by {
        assert(cr[j] == cs[j + mid + 1]);
        if j > 0 {
            assert(kr[j - 1] == keys[j + mid]);
        }
        if j < kr.len() {
            assert(kr[j] == keys[j + mid + 1]);
        }
    }
    assert forall|j1: int, j2: int|
        0 <= j1 < cl.len() && 0 <= j2 < cl.len() && j1 != j2 implies reach(a, #[trigger] cl[j1] as int, hc).disjoint(
            reach(a, #[trigger] cl[j2] as int, hc)) by {
        assert(cl[j1] == cs[j1] && cl[j2] == cs[j2]);
    }
    assert forall|j1: int, j2: int|
        0 <= j1 < cr.len() && 0 <= j2 < cr.len() && j1 != j2 implies reach(a, #[trigger] cr[j1] as int, hc).disjoint(
            reach(a, #[trigger] cr[j2] as int, hc)) by {
        assert(cr[j1] == cs[j1 + mid + 1] && cr[j2] == cs[j2 + mid + 1]);
    }
    assert(sorted(kl));
    assert(sorted(kr));
    assert forall|x: int| #[trigger] reach_all(a, cl, hc).contains(x) implies reach_all(a, cs, hc).contains(x) by {
        let j = choose|j: int| 0 <= j < cl.len() && #[trigger] reach(a, cl[j] as int, hc).contains(x);
        assert(reach(a, cs[j] as int, hc).contains(x));
    }
    assert forall|x: int| #[trigger] reach_all(a, cr, hc).contains(x) implies reach_all(a, cs, hc).contains(x) by {
        let j = choose|j: int| 0 <= j < cr.len() && #[trigger] reach(a, cr[j] as int, hc).contains(x);
        assert(reach(a, cs[j + mid + 1] as int, hc).contains(x));
    }
    assert forall|x: int| !(reach_all(a, cl, hc).contains(x) && reach_all(a, cr, hc).contains(x)) by {
        if reach_all(a, cl, hc).contains(x) && reach_all(a, cr, hc).contains(x) {
            let j1 = choose|j: int| 0 <= j < cl.len() && #[trigger] reach(a, cl[j] as int, hc).contains(x);
            let j2 = choose|j: int| 0 <= j < cr.len() && #[trigger] reach(a, cr[j] as int, hc).contains(x);
            assert(reach(a, cs[j1] as int, hc).disjoint(reach(a, cs[j2 + mid + 1] as int, hc)));
            assert(reach(a, cs[j1] as int, hc).contains(x));
            assert(reach(a, cs[j2 + mid + 1] as int, hc).contains(x));
        }
    }
    assert forall|k: int| k < keys[mid] implies #[trigger] internal_lookup(a, kl, cl, h, k) == internal_lookup(a, keys, cs, h, k) by {
        lemma_route(keys, k);
        lemma_route_split(keys, mid, k);
        assert(cl[route(keys, k)] == cs[route(keys, k)]);
    }
    assert forall|k: int| k >= keys[mid] implies #[trigger] internal_lookup(a, kr, cr, h, k) == internal_lookup(a, keys, cs, h, k) by {
        lemma_route(keys, k);
        lemma_route_split(keys, mid, k);
        assert(cr[route(keys, k) - (mid + 1)] == cs[route(keys, k)]);
    }
}

/// A leaf at `id` replaced, in place, by a leaf that maps `key` to `value`
/// and keeps every other key.
pub proof fn lemma_leaf_outcome<V>(a0: Seq<Node<V>>, af: Seq<Node<V>>, id: int, lo: int, hi: int, key: i64, value: V)
    requires
        wf_node(a0, id, 0, lo, hi),
        lo <= key < hi,
        af.len() == a0.len(),
        forall|x: int| 0 <= x < a0.len() && x != id ==> af[x] == a0[x],
        af[id] matches Node::Leaf { keys, values, .. } && {
            &&& keys@.len() == values@.len()
            &&& strictly_sorted(keys@)
            &&& forall|j: int| 0 <= j < keys@.len() ==> lo <= #[trigger] keys@[j] < hi
            &&& forall|k: int| #[trigger] leaf_find(keys@, values@, k) == if k == key {
                Some(value)
            } else {
                lookup(a0, id, 0, k)
            }
        },
    ensures
        insert_outcome(a0, af, id, 0, lo, hi, key, value, None),
{
    assert(reach(af, id, 0) =~= set![id]);
    assert(reach(a0, id, 0) =~= set![id]);
}

/// A leaf at `id` split into itself and a new leaf `nid` around `sep`.
pub proof fn lemma_leaf_split_outcome<V>(
    a0: Seq<Node<V>>,
    af: Seq<Node<V>>,
    id: int,
    nid: NodeId,
    lo: int,
    hi: int,
    key: i64,
    value: V,
    sep: i64,
)
    requires
        wf_node(a0, id, 0, lo, hi),
        lo <= sep < hi,
        af.len() == a0.len() + 1,
        nid == a0.len(),
        forall|x: int| 0 <= x < a0.len() && x != id ==> af[x] == a0[x],
        af[id] matches Node::Leaf { keys, values, .. } && {
            &&& keys@.len() == values@.len()
            &&& strictly_sorted(keys@)
            &&& forall|j: int| 0 <= j < keys@.len() ==> lo <= #[trigger] keys@[j] < sep
        },
        af[nid as int] matches Node::Leaf { keys, values, .. } && {
            &&& keys@.len() == values@.len()
            &&& strictly_sorted(keys@)
            &&& forall|j: int| 0 <= j < keys@.len() ==> sep <= #[trigger] keys@[j] < hi
        },
        forall|k: int|
            (if k < sep {
                leaf_find(af[id]->Leaf_keys@, af[id]->values@, k)
            } else {
                leaf_find(af[nid as int]->Leaf_keys@, af[nid as int]->values@, k)
            }) == if k == key {
                Some(value)
            } else {
                #[trigger] lookup(a0, id, 0, k)
            },
    ensures
        insert_outcome(a0, af, id, 0, lo, hi, key, value, Some((sep, nid))),
{
    assert(reach(af, id, 0) =~= set![id]);
    assert(reach(af, nid as int, 0) =~= set![nid as int]);
    assert(reach(a0, id, 0) =~= set![id]);
    assert forall|k: int|
        (if k < sep {
            lookup(af, id, 0, k)
        } else {
            lookup(af, nid as int, 0, k)
        }) == if k == key {
            Some(value)
        } else {
            #[trigger] lookup(a0, id, 0, k)
        } by {
        assert(lookup(af, id, 0, k) == leaf_find(af[id]->Leaf_keys@, af[id]->values@, k));
        assert(lookup(af, nid as int, 0, k) == leaf_find(af[nid as int]->Leaf_keys@, af[nid as int]->values@, k));
    }
}

/// The child `cs[i]` took the key without a split, so the internal node at
/// `id` did too.
pub proof fn lemma_internal_outcome<V>(
    a0: Seq<Node<V>>,
    a1: Seq<Node<V>>,
    id: int,
    h: nat,
    lo: int,
    hi: int,
    key: i64,
    value: V,
    i: int,
)
    requires
        wf_node(a0, id, h, lo, hi),
        a0[id] is Internal,
        i == route(a0[id]->Internal_keys@, key as int),
        insert_outcome(
            a0,
            a1,
            a0[id]->children@[i] as int,
            (h - 1) as nat,
            child_lo(lo, a0[id]->Internal_keys@, i),
            child_hi(a0[id]->Internal_keys@, hi, i),
            key,
            value,
            None,
        ),
    ensures
        insert_outcome(a0, a1, id, h, lo, hi, key, value, None),
{
    let keys0 = a0[id]->Internal_keys@;
    let cs0 = a0[id]->children@;
    let hc = (h - 1) as nat;
    lemma_route(keys0, key as int);
    lemma_reach_all(a0, cs0, hc);
    lemma_children_reach(a0, keys0, cs0, h, lo, hi);
    assert(reach(a0, cs0[i] as int, hc).contains(id) ==> reach_all(a0, cs0, hc).contains(id));
    assert(a1[id] == a0[id]);
    lemma_children_update(a0, a1, keys0, cs0, h, lo, hi, i, key, value);
    assert(reach(a1, id, h) == set![id].union(reach_all(a1, cs0, hc)));
    assert(reach(a0, id, h) == set![id].union(reach_all(a0, cs0, hc)));
    assert forall|x: int| 0 <= x < a0.len() && !#[trigger] reach(a0, id, h).contains(x) implies a1[x] == a0[x] by {
        if reach(a0, cs0[i] as int, hc).contains(x) {
            assert(reach_all(a0, cs0, hc).contains(x));
        }
    }
    assert forall|k: int| #[trigger] lookup(a1, id, h, k) == if k == key {
        Some(value)
    } else {
        lookup(a0, id, h, k)
    } by {
        assert(lookup(a1, id, h, k) == internal_lookup(a1, keys0, cs0, h, k));
        assert(lookup(a0, id, h, k) == internal_lookup(a0, keys0, cs0, h, k));
    }
}

/// The child `cs[i]` split around `sep` into itself and `nid`; the node at
/// `id` takes the separator and the new child and still fits.
pub proof fn lemma_internal_grow_outcome<V>(
    a0: Seq<Node<V>>,
    a1: Seq<Node<V>>,
    af: Seq<Node<V>>,
    id: int,
    h: nat,
    lo: int,
    hi: int,
    key: i64,
    value: V,
    i: int,
    sep: i64,
    nid: NodeId,
)
    requires
        wf_node(a0, id, h, lo, hi),
        a0[id] is Internal,
        i == route(a0[id]->Internal_keys@, key as int),
        insert_outcome(
            a0,
            a1,
            a0[id]->children@[i] as int,
            (h - 1) as nat,
            child_lo(lo, a0[id]->Internal_keys@, i),
            child_hi(a0[id]->Internal_keys@, hi, i),
            key,
            value,
            Some((sep, nid)),
        ),
        af.len() == a1.len(),
        forall|x: int| 0 <= x < a1.len() && x != id ==> af[x] == a1[x],
        af[id] matches Node::Internal { keys, children } && keys@ == a0[id]->Internal_keys@.insert(
            i,
            sep,
        ) && children@ == a0[id]->children@.insert(i + 1, nid),
    ensures
        insert_outcome(a0, af, id, h, lo, hi, key, value, None),
{
    let keys0 = a0[id]->Internal_keys@;
    let cs0 = a0[id]->children@;
    let k1 = keys0.insert(i, sep);
    let c1 = cs0.insert(i + 1, nid);
    let hc = (h - 1) as nat;
    lemma_route(keys0, key as int);
    lemma_reach_all(a0, cs0, hc);
    lemma_children_reach(a0, keys0, cs0, h, lo, hi);
    assert(reach(a0, cs0[i] as int, hc).contains(id) ==> reach_all(a0, cs0, hc).contains(id));
    assert(a1[id] == a0[id]);
    lemma_children_insert(a0, a1, keys0, cs0, h, lo, hi, i, key, value, sep, nid);
    lemma_children_reach(a1, k1, c1, h, lo, hi);
    assert forall|x: int| #[trigger] reach_all(a1, c1, hc).contains(x) implies 0 <= x < af.len() && af[x] == a1[x] by {}
    lemma_children_frame(a1, af, k1, c1, h, lo, hi);
    assert(reach(af, id, h) == set![id].union(reach_all(af, c1, hc)));
    assert(reach(a0, id, h) == set![id].union(reach_all(a0, cs0, hc)));
    assert forall|x: int| 0 <= x < a0.len() && !#[trigger] reach(a0, id, h).contains(x) implies af[x] == a0[x] by {
        if reach(a0, cs0[i] as int, hc).contains(x) {
            assert(reach_all(a0, cs0, hc).contains(x));
        }
    }
    assert forall|k: int| #[trigger] lookup(af, id, h, k) == if k == key {
        Some(value)
    } else {
        lookup(a0, id, h, k)
    } by {
        assert(lookup(af, id, h, k) == internal_lookup(af, k1, c1, h, k));
        assert(lookup(a0, id, h, k) == internal_lookup(a0, keys0, cs0, h, k));
    }
}

/// The node at `id` took the separator and new child from its child and
/// overflowed; it is split around `sep` into itself and the new node `nid`.
pub proof fn lemma_internal_split_outcome<V>(
    a0: Seq<Node<V>>,
    a1: Seq<Node<V>>,
    af: Seq<Node<V>>,
    id: int,
    h: nat,
    lo: int,
    hi: int,
    key: i64,
    value: V,
    i: int,
    csep: i64,
    cnid: NodeId,
    mid: int,
    nid: NodeId,
)
    requires
        wf_node(a0, id, h, lo, hi),
        a0[id] is Internal,
        i == route(a0[id]->Internal_keys@, key as int),
        insert_outcome(
            a0,
            a1,
            a0[id]->children@[i] as int,
            (h - 1) as nat,
            child_lo(lo, a0[id]->Internal_keys@, i),
            child_hi(a0[id]->Internal_keys@, hi, i),
            key,
            value,
            Some((csep, cnid)),
        ),
        0 <= mid < a0[id]->Internal_keys@.len() + 1,
        af.len() == a1.len() + 1,
        nid == a1.len(),
        forall|x: int| 0 <= x < a1.len() && x != id ==> af[x] == a1[x],
        af[id] matches Node::Internal { keys, children } && keys@ == a0[id]->Internal_keys@.insert(
            i,
            csep,
        ).subrange(0, mid) && children@ == a0[id]->children@.insert(i + 1, cnid).subrange(0, mid + 1),
        af[nid as int] matches Node::Internal { keys, children } && keys@ == a0[id]->Internal_keys@.insert(
            i,
            csep,
        ).subrange(mid + 1, a0[id]->Internal_keys@.len() + 1int) && children@ == a0[id]->children@.insert(
            i + 1,
            cnid,
        ).subrange(mid + 1, a0[id]->children@.len() + 1int),
    ensures
        insert_outcome(a0, af, id, h, lo, hi, key, value, Some((a0[id]->Internal_keys@.insert(i, csep)[mid], nid))),
{
    let keys0 = a0[id]->Internal_keys@;
    let cs0 = a0[id]->children@;
    let k1 = keys0.insert(i, csep);
    let c1 = cs0.insert(i + 1, cnid);
    let sep = k1[mid];
    let hc = (h - 1) as nat;
    let kl = k1.subrange(0, mid);
    let cl = c1.subrange(0, mid + 1);
    let kr = k1.subrange(mid + 1, k1.len() as int);
    let cr = c1.subrange(mid + 1, c1.len() as int);
    lemma_route(keys0, key as int);
    lemma_reach_all(a0, cs0, hc);
    lemma_children_reach(a0, keys0, cs0, h, lo, hi);
    assert(reach(a0, cs0[i] as int, hc).contains(id) ==> reach_all(a0, cs0, hc).contains(id));
    assert(a1[id] == a0[id]);
    lemma_children_insert(a0, a1, keys0, cs0, h, lo, hi, i, key, value, csep, cnid);
    lemma_children_reach(a1, k1, c1, h, lo, hi);
    assert forall|x: int| #[trigger] reach_all(a1, c1, hc).contains(x) implies 0 <= x < af.len() && af[x] == a1[x] by {}
    lemma_children_frame(a1, af, k1, c1, h, lo, hi);
    lemma_children_split(af, k1, c1, h, lo, hi, mid);
    assert(af[id]->Internal_keys@ == kl);
    assert(af[nid as int]->Internal_keys@ == kr);
    assert(reach(af, id, h) == set![id].union(reach_all(af, cl, hc)));
    assert(reach(af, nid as int, h) == set![nid as int].union(reach_all(af, cr, hc)));
    assert(reach(a0, id, h) == set![id].union(reach_all(a0, cs0, hc)));
    assert(wf_node(af, id, h, lo, sep as int));
    assert(wf_node(af, nid as int, h, sep as int, hi));
    assert forall|x: int| 0 <= x < a0.len() && !#[trigger] reach(a0, id, h).contains(x) implies af[x] == a0[x] by {
        if reach(a0, cs0[i] as int, hc).contains(x) {
            assert(reach_all(a0, cs0, hc).contains(x));
        }
    }
    assert forall|k: int|
        (if k < sep {
            lookup(af, id, h, k)
        } else {
            lookup(af, nid as int, h, k)
        }) == if k == key {
            Some(value)
        } else {
            #[trigger] lookup(a0, id, h, k)
        } by {
        assert(lookup(af, id, h, k) == internal_lookup(af, kl, cl, h, k));
        assert(lookup(af, nid as int, h, k) == internal_lookup(af, kr, cr, h, k));
        assert(lookup(a0, id, h, k) == internal_lookup(a0, keys0, cs0, h, k));
        assert(internal_lookup(af, k1, c1, h, k) == internal_lookup(a1, k1, c1, h, k));
    }
}

/// The links between leaves after an insertion into child `i` of the node
/// at `id` that did not split the child.
pub proof fn lemma_chain_internal<V>(
    a0: Seq<Node<V>>,
    a1: Seq<Node<V>>,
    id: int,
    h: nat,
    lo: int,
    hi: int,
    key: i64,
    value: V,
    i: int,
)
    requires
        wf_node(a0, id, h, lo, hi),
        a0[id] is Internal,
        i == route(a0[id]->Internal_keys@, key as int),
        insert_outcome(
            a0,
            a1,
            a0[id]->children@[i] as int,
            (h - 1) as nat,
            child_lo(lo, a0[id]->Internal_keys@, i),
            child_hi(a0[id]->Internal_keys@, hi, i),
            key,
            value,
            None,
        ),
        chain_outcome(a0, a1, a0[id]->children@[i] as int, (h - 1) as nat, None),
    ensures
        chain_outcome(a0, a1, id, h, None),
{
    let keys0 = a0[id]->Internal_keys@;
    let cs0 = a0[id]->children@;
    let hc = (h - 1) as nat;
    let ci = cs0[i] as int;
    lemma_internal_outcome(a0, a1, id, h, lo, hi, key, value, i);
    lemma_route(keys0, key as int);
    lemma_reach_all(a0, cs0, hc);
    lemma_children_reach(a0, keys0, cs0, h, lo, hi);
    assert(reach(a0, ci, hc).contains(id) ==> reach_all(a0, cs0, hc).contains(id));
    assert(a1[id] == a0[id]);
    assert(children_ok(a0, keys0, cs0, h, lo, hi));
    assert(children_ok(a1, keys0, cs0, h, lo, hi));
    assert(leaf_seq(a0, id, h) == leaf_seq_all(a0, cs0, hc));
    assert(leaf_seq(a1, id, h) == leaf_seq_all(a1, cs0, hc));
    assert forall|j: int| 0 <= j < cs0.len() && j != i implies {
        &&& leaf_seq(a1, #[trigger] cs0[j] as int, hc) == leaf_seq(a0, cs0[j] as int, hc)
        &&& forall|t: Option<int>| #[trigger]
            linked(a1, leaf_seq(a0, cs0[j] as int, hc), t) == linked(a0, leaf_seq(a0, cs0[j] as int, hc), t)
    } by {
        let cj = cs0[j] as int;
        lemma_reach(a0, cj, hc, child_lo(lo, keys0, j), child_hi(keys0, hi, j));
        assert forall|x: int| #[trigger] reach(a0, cj, hc).contains(x) implies 0 <= x < a1.len() && a1[x] == a0[x] by {
            assert(reach(a0, cj, hc).disjoint(reach(a0, ci, hc)));
        }
        lemma_leaf_seq_frame(a0, a1, cj, hc, child_lo(lo, keys0, j), child_hi(keys0, hi, j));
    }
    assert forall|j: int| 0 <= j < cs0.len() implies #[trigger] leaf_seq(a1, cs0[j] as int, hc)[0] == leaf_seq(
        a0,
        cs0[j] as int,
        hc,
    )[0] by {
        if j != i {
            assert(leaf_seq(a1, cs0[j] as int, hc) == leaf_seq(a0, cs0[j] as int, hc));
        }
    }
    assert forall|t: Option<int>| #[trigger] linked(a0, leaf_seq(a0, id, h), t) implies linked(
        a1,
        leaf_seq(a1, id, h),
        t,
    ) by {
        lemma_linked_children(a0, cs0, hc, keys0, lo, hi, t);
        lemma_linked_children(a1, cs0, hc, keys0, lo, hi, t);
        assert forall|j: int| 0 <= j < cs0.len() implies #[trigger] linked(
            a1,
            leaf_seq(a1, cs0[j] as int, hc),
            child_tail(a1, cs0, hc, j, t),
        ) by {
            let tj = child_tail(a0, cs0, hc, j, t);
            if j + 1 < cs0.len() {
                assert(leaf_seq(a1, cs0[j + 1] as int, hc)[0] == leaf_seq(a0, cs0[j + 1] as int, hc)[0]);
            }
            assert(child_tail(a1, cs0, hc, j, t) == tj);
            assert(linked(a0, leaf_seq(a0, cs0[j] as int, hc), tj));
            if j != i {
                assert(linked(a1, leaf_seq(a0, cs0[j] as int, hc), tj) == linked(a0, leaf_seq(a0, cs0[j] as int, hc), tj));
            }
        }
    }
    lemma_linked_children(a0, cs0, hc, keys0, lo, hi, None);
    lemma_linked_children(a1, cs0, hc, keys0, lo, hi, None);
    assert(leaf_seq(a1, cs0[0] as int, hc)[0] == leaf_seq(a0, cs0[0] as int, hc)[0]);
}

/// The links between leaves after an insertion into child `i` of the node
/// at `id` split that child around `sep` into itself and `cnid`: the
/// children with `cnid` inserted after child `i`, in any arena `af` that
/// differs from the arena `a1` after the insertion at most at `id` and past
/// its end, have the leaves of the node in order, linked as they were.
pub proof fn lemma_chain_children_insert<V>(
    a0: Seq<Node<V>>,
    a1: Seq<Node<V>>,
    af: Seq<Node<V>>,
    id: int,
    h: nat,
    lo: int,
    hi: int,
    key: i64,
    value: V,
    i: int,
    sep: i64,
    cnid: NodeId,
)
    requires
        wf_node(a0, id, h, lo, hi),
        a0[id] is Internal,
        i == route(a0[id]->Internal_keys@, key as int),
        insert_outcome(
            a0,
            a1,
            a0[id]->children@[i] as int,
            (h - 1) as nat,
            child_lo(lo, a0[id]->Internal_keys@, i),
            child_hi(a0[id]->Internal_keys@, hi, i),
            key,
            value,
            Some((sep, cnid)),
        ),
        chain_outcome(a0, a1, a0[id]->children@[i] as int, (h - 1) as nat, Some((sep, cnid))),
        a1.len() <= af.len(),
        forall|x: int| 0 <= x < a1.len() && x != id ==> af[x] == a1[x],
    ensures
        leaf_seq_all(af, a0[id]->children@.insert(i + 1, cnid), (h - 1) as nat).len() > 0,
        leaf_seq_all(af, a0[id]->children@.insert(i + 1, cnid), (h - 1) as nat)[0] == leaf_seq(a0, id, h)[0],
        forall|t: Option<int>| #[trigger]
            linked(a0, leaf_seq(a0, id, h), t) ==> linked(
                af,
                leaf_seq_all(af, a0[id]->children@.insert(i + 1, cnid), (h - 1) as nat),
                t,
            ),
{
    let keys0 = a0[id]->Internal_keys@;
    let cs0 = a0[id]->children@;
    let hc = (h - 1) as nat;
    let ci = cs0[i] as int;
    let k1 = keys0.insert(i, sep);
    let c1 = cs0.insert(i + 1, cnid);
    lemma_route(keys0, key as int);
    lemma_reach_all(a0, cs0, hc);
    lemma_children_reach(a0, keys0, cs0, h, lo, hi);
    lemma_reach(a0, id, h, lo, hi);
    assert(children_ok(a0, keys0, cs0, h, lo, hi));
    assert(leaf_seq(a0, id, h) == leaf_seq_all(a0, cs0, hc));
    lemma_children_insert(a0, a1, keys0, cs0, h, lo, hi, i, key, value, sep, cnid);
    lemma_children_reach(a1, k1, c1, h, lo, hi);
    lemma_reach_all(a1, c1, hc);
    assert forall|x: int| #[trigger] reach_all(a1, c1, hc).contains(x) implies 0 <= x < af.len() && af[x] == a1[x] by {
        let j = choose|j: int| 0 <= j < c1.len() && #[trigger] reach(a1, c1[j] as int, hc).contains(x);
        lemma_reach(a1, c1[j] as int, hc, child_lo(lo, k1, j), child_hi(k1, hi, j));
    }
    lemma_children_frame(a1, af, k1, c1, h, lo, hi);
    // every child's leaves are the same in `af` as in `a1`
    assert forall|j: int| 0 <= j < c1.len() implies {
        &&& leaf_seq(af, #[trigger] c1[j] as int, hc) == leaf_seq(a1, c1[j] as int, hc)
        &&& forall|t: Option<int>| #[trigger]
            linked(af, leaf_seq(a1, c1[j] as int, hc), t) == linked(a1, leaf_seq(a1, c1[j] as int, hc), t)
    } by {
        let cj = c1[j] as int;
        assert forall|x: int| #[trigger] reach(a1, cj, hc).contains(x) implies 0 <= x < af.len() && af[x] == a1[x] by {
            assert(reach_all(a1, c1, hc).contains(x));
        }
        lemma_leaf_seq_frame(a1, af, cj, hc, child_lo(lo, k1, j), child_hi(k1, hi, j));
    }
    // the children other than the split one are the same in `a1` as in `a0`
    assert forall|j: int| 0 <= j < cs0.len() && j != i implies {
        &&& leaf_seq(a1, #[trigger] cs0[j] as int, hc) == leaf_seq(a0, cs0[j] as int, hc)
        &&& forall|t: Option<int>| #[trigger]
            linked(a1, leaf_seq(a0, cs0[j] as int, hc), t) == linked(a0, leaf_seq(a0, cs0[j] as int, hc), t)
    } by {
        let cj = cs0[j] as int;
        lemma_reach(a0, cj, hc, child_lo(lo, keys0, j), child_hi(keys0, hi, j));
        assert forall|x: int| #[trigger] reach(a0, cj, hc).contains(x) implies 0 <= x < a1.len() && a1[x] == a0[x] by {
            assert(reach(a0, cj, hc).disjoint(reach(a0, ci, hc)));
        }
        lemma_leaf_seq_frame(a0, a1, cj, hc, child_lo(lo, keys0, j), child_hi(keys0, hi, j));
    }
    assert(c1[i] == cs0[i]);
    assert(c1[i + 1] == cnid);
    assert forall|j: int| 0 <= j < c1.len() implies #[trigger] leaf_seq(af, c1[j] as int, hc)[0] == if j <= i {
        leaf_seq(a0, cs0[j] as int, hc)[0]
    } else if j == i + 1 {
        leaf_seq(a1, cnid as int, hc)[0]
    } else {
        leaf_seq(a0, cs0[j - 1] as int, hc)[0]
    } by {
        if j < i {
            assert(c1[j] == cs0[j]);
        } else if j > i + 1 {
            assert(c1[j] == cs0[j - 1]);
        }
    }
    lemma_linked_children(a0, cs0, hc, keys0, lo, hi, None);
    lemma_linked_children(af, c1, hc, k1, lo, hi, None);
    assert forall|t: Option<int>| #[trigger] linked(a0, leaf_seq(a0, id, h), t) implies linked(
        af,
        leaf_seq_all(af, c1, hc),
        t,
    ) by {
        lemma_linked_children(a0, cs0, hc, keys0, lo, hi, t);
        lemma_linked_children(af, c1, hc, k1, lo, hi, t);
        let ti = child_tail(a0, cs0, hc, i, t);
        assert(linked(a0, leaf_seq(a0, cs0[i] as int, hc), ti));
        assert(linked(a0, leaf_seq(a0, ci, hc), ti));
        assert forall|j: int| 0 <= j < c1.len() implies #[trigger] linked(
            af,
            leaf_seq(af, c1[j] as int, hc),
            child_tail(af, c1, hc, j, t),
        ) by {
            let cj = c1[j] as int;
            if j < i {
                assert(c1[j] == cs0[j]);
                assert(c1[j + 1] == cs0[j + 1]);
                assert(child_tail(af, c1, hc, j, t) == child_tail(a0, cs0, hc, j, t));
                assert(linked(a0, leaf_seq(a0, cs0[j] as int, hc), child_tail(a0, cs0, hc, j, t)));
                assert(linked(a1, leaf_seq(a0, cs0[j] as int, hc), child_tail(a0, cs0, hc, j, t)));
                assert(linked(af, leaf_seq(a1, c1[j] as int, hc), child_tail(a0, cs0, hc, j, t)));
            } else if j == i {
                assert(child_tail(af, c1, hc, j, t) == Some(leaf_seq(a1, cnid as int, hc)[0]));
                assert(linked(af, leaf_seq(a1, c1[j] as int, hc), child_tail(af, c1, hc, j, t)));
            } else if j == i + 1 {
                if j + 1 < c1.len() {
                    assert(c1[j + 1] == cs0[i + 1]);
                }
                assert(child_tail(af, c1, hc, j, t) == ti);
                assert(linked(a1, leaf_seq(a1, cnid as int, hc), ti));
                assert(linked(af, leaf_seq(a1, c1[j] as int, hc), ti));
            } else {
                assert(c1[j] == cs0[j - 1]);
                if j + 1 < c1.len() {
                    assert(c1[j + 1] == cs0[j]);
                }
                assert(child_tail(af, c1, hc, j, t) == child_tail(a0, cs0, hc, j - 1, t));
                assert(linked(a0, leaf_seq(a0, cs0[j - 1] as int, hc), child_tail(a0, cs0, hc, j - 1, t)));
                assert(linked(a1, leaf_seq(a0, cs0[j - 1] as int, hc), child_tail(a0, cs0, hc, j - 1, t)));
                assert(linked(af, leaf_seq(a1, c1[j] as int, hc), child_tail(a0, cs0, hc, j - 1, t)));
            }
        }
    }
    assert(c1[0] == cs0[0]);
}

/// The links between leaves when the node at `id` takes the separator and
/// new child of a split child and still fits.
pub proof fn lemma_chain_grow<V>(
    a0: Seq<Node<V>>,
    a1: Seq<Node<V>>,
    af: Seq<Node<V>>,
    id: int,
    h: nat,
    lo: int,
    hi: int,
    key: i64,
    value: V,
    i: int,
    sep: i64,
    nid: NodeId,
)
    requires
        wf_node(a0, id, h, lo, hi),
        a0[id] is Internal,
        i == route(a0[id]->Internal_keys@, key as int),
        insert_outcome(
            a0,
            a1,
            a0[id]->children@[i] as int,
            (h - 1) as nat,
            child_lo(lo, a0[id]->Internal_keys@, i),
            child_hi(a0[id]->Internal_keys@, hi, i),
            key,
            value,
            Some((sep, nid)),
        ),
        chain_outcome(a0, a1, a0[id]->children@[i] as int, (h - 1) as nat, Some((sep, nid))),
        af.len() == a1.len(),
        forall|x: int| 0 <= x < a1.len() && x != id ==> af[x] == a1[x],
        af[id] matches Node::Internal { keys, children } && keys@ == a0[id]->Internal_keys@.insert(
            i,
            sep,
        ) && children@ == a0[id]->children@.insert(i + 1, nid),
    ensures
        chain_outcome(a0, af, id, h, None),
{
    lemma_reach(a0, id, h, lo, hi);
    lemma_chain_children_insert(a0, a1, af, id, h, lo, hi, key, value, i, sep, nid);
    assert(leaf_seq(af, id, h) == leaf_seq_all(af, a0[id]->children@.insert(i + 1, nid), (h - 1) as nat));
}

/// The links between leaves when the node at `id` took the separator and
/// new child of a split child, overflowed, and was split into itself and
/// the new node `nid`.
pub proof fn lemma_chain_split<V>(
    a0: Seq<Node<V>>,
    a1: Seq<Node<V>>,
    af: Seq<Node<V>>,
    id: int,
    h: nat,
    lo: int,
    hi: int,
    key: i64,
    value: V,
    i: int,
    csep: i64,
    cnid: NodeId,
    mid: int,
    nid: NodeId,
)
    requires
        wf_node(a0, id, h, lo, hi),
        a0[id] is Internal,
        i == route(a0[id]->Internal_keys@, key as int),
        insert_outcome(
            a0,
            a1,
            a0[id]->children@[i] as int,
            (h - 1) as nat,
            child_lo(lo, a0[id]->Internal_keys@, i),
            child_hi(a0[id]->Internal_keys@, hi, i),
            key,
            value,
            Some((csep, cnid)),
        ),
        chain_outcome(a0, a1, a0[id]->children@[i] as int, (h - 1) as nat, Some((csep, cnid))),
        0 <= mid < a0[id]->Internal_keys@.len() + 1,
        af.len() == a1.len() + 1,
        nid == a1.len(),
        forall|x: int| 0 <= x < a1.len() && x != id ==> af[x] == a1[x],
        af[id] matches Node::Internal { keys, children } && keys@ == a0[id]->Internal_keys@.insert(
            i,
            csep,
        ).subrange(0, mid) && children@ == a0[id]->children@.insert(i + 1, cnid).subrange(0, mid + 1),
        af[nid as int] matches Node::Internal { keys, children } && keys@ == a0[id]->Internal_keys@.insert(
            i,
            csep,
        ).subrange(mid + 1, a0[id]->Internal_keys@.len() + 1int) && children@ == a0[id]->children@.insert(
            i + 1,
            cnid,
        ).subrange(mid + 1, a0[id]->children@.len() + 1int),
    ensures
        chain_outcome(a0, af, id, h, Some((a0[id]->Internal_keys@.insert(i, csep)[mid], nid))),
{
    let keys0 = a0[id]->Internal_keys@;
    let cs0 = a0[id]->children@;
    let hc = (h - 1) as nat;
    let c1 = cs0.insert(i + 1, cnid);
    let cl = c1.subrange(0, mid + 1);
    let cr = c1.subrange(mid + 1, c1.len() as int);
    let sep = keys0.insert(i, csep)[mid];
    lemma_reach(a0, id, h, lo, hi);
    lemma_internal_split_outcome(a0, a1, af, id, h, lo, hi, key, value, i, csep, cnid, mid, nid);
    lemma_chain_children_insert(a0, a1, af, id, h, lo, hi, key, value, i, csep, cnid);
    assert(children_ok(a0, keys0, cs0, h, lo, hi));
    lemma_route(keys0, key as int);
    assert(c1.len() == cs0.len() + 1);
    assert(c1 =~= cl + cr);
    assert(af[nid as int]->children@ == cr);
    lemma_leaf_seq_all_concat(af, cl, cr, hc);
    assert(leaf_seq(af, id, h) == leaf_seq_all(af, cl, hc));
    assert(leaf_seq(af, nid as int, h) == leaf_seq_all(af, cr, hc));
    lemma_leaf_seq_wf(af, id, h, lo, sep as int);
    lemma_leaf_seq_wf(af, nid as int, h, sep as int, hi);
    let ll = leaf_seq(af, id, h);
    let lr = leaf_seq(af, nid as int, h);
    assert((ll + lr)[0] == ll[0]);
    assert forall|t: Option<int>| #[trigger] linked(a0, leaf_seq(a0, id, h), t) implies {
        &&& lr.len() > 0
        &&& linked(af, ll, Some(lr[0]))
        &&& linked(af, lr, t)
    } by {
        lemma_linked_concat(af, ll, lr, t);
    }
}

/// Position in sorted `keys` just past every key at most `k`.
fn upper_bound(keys: &Vec<i64>, k: i64) -> (r: usize)
    requires
        sorted(keys@),
    ensures
        r == route(keys@, k as int),
{
    let mut lo: usize = 0;
    let mut hi: usize = keys.len();
    while lo < hi
        invariant
            sorted(keys@),
            0 <= lo <= hi <= keys@.len(),
            forall|j: int| 0 <= j < lo ==> #[trigger] keys@[j] <= k,
            forall|j: int| hi <= j < keys@.len() ==> #[trigger] keys@[j] > k,
        decreases hi - lo,
    {
        let mid = lo + (hi - lo) / 2;
        if keys[mid] <= k {
            assert forall|j: int| 0 <= j <= mid implies #[trigger] keys@[j] <= k by {
                assert(keys@[j] <= keys@[mid as int]);
            }
            lo = mid + 1;
        } else {
            assert forall|j: int| mid <= j < keys@.len() implies #[trigger] keys@[j] > k by {
                assert(keys@[mid as int] <= keys@[j]);
            }
            hi = mid;
        }
    }
    proof {
        lemma_route_unique(keys@, k as int, lo as int);
    }
    lo
}

/// Putting at position `id` of an arena whose nodes hold at most `order`
/// keys a node that holds at most `order` keys, and appending such nodes,
/// leaves an arena whose nodes hold at most `order` keys.
proof fn lemma_fits_update<V>(a0: Seq<Node<V>>, af: Seq<Node<V>>, id: int, order: int)
    requires
        arena_fits(a0, order),
        0 <= id < a0.len() <= af.len(),
        forall|i: int| 0 <= i < a0.len() && i != id ==> af[i] == a0[i],
        key_count(af[id]) <= order,
        forall|i: int| a0.len() <= i < af.len() ==> key_count(#[trigger] af[i]) <= order,
    ensures
        arena_fits(af, order),
{
    assert forall|i: int| 0 <= i < af.len() implies #[trigger] key_count(af[i]) <= order by {
        if i < a0.len() && i != id {
            assert(af[i] == a0[i]);
        }
    }
}

/// How an insert changes the root and the height of a tree whose root was
/// `root0` (at height `h0`, with `n0` nodes) to `root1` at height `h1` in
/// arena `a1`.  An empty tree first gets a leaf at position `n0` as its
/// root, at height 0.  The root then stays, and so does the height, unless
/// it split: then a new internal node at the end of the arena, with one key
/// and the old root and the node split off it as its children, becomes the
/// root, one level higher.
pub open spec fn root_outcome<V>(
    root0: Option<NodeId>,
    h0: nat,
    n0: nat,
    root1: Option<NodeId>,
    h1: nat,
    a1: Seq<Node<V>>,
) -> bool {
    let r0: int = match root0 {
        Some(r) => r as int,
        None => n0 as int,
    };
    let g0: nat = if root0 is Some {
        h0
    } else {
        0
    };
    let last = a1.len() - 1;
    ||| (root1 matches Some(r) && r == r0 && h1 == g0)
    ||| {
        &&& root1 matches Some(r) && r == last
        &&& h1 == g0 + 1
        &&& a1[last] is Internal
        &&& a1[last]->Internal_keys@.len() == 1
        &&& a1[last]->children@.len() == 2
        &&& a1[last]->children@[0] == r0
        &&& a1[last]->children@[1] == last - 1
    }
}

/// A B+ tree from `i64` keys to values, its nodes kept in an arena and
/// addressed by index.  Leaves hold the entries; a node holding more than
/// `order` keys is split in two.
pub struct BPlusTree<V> {
    order: usize,
    root: Option<NodeId>,
    arena: Vec<Node<V>>,
    height: Ghost<nat>,
}

impl<V> View for BPlusTree<V> {
    type V = Map<i64, V>;

    /// The map from each key to the value that a search for it finds.
    closed spec fn view(&self) -> Map<i64, V> {
        Map::new(|k: i64| self.lookup_key(k) is Some, |k: i64| self.lookup_key(k)->0)
    }
}

impl<V> BPlusTree<V> {
    /// The tree is a well-formed search tree over all of `i64`, and its
    /// leaves are linked: following the `next` links from the first leaf
    /// visits every leaf, left to right, and the last one links nowhere.
    pub closed spec fn wf(&self) -> bool {
        match self.root {
            None => true,
            Some(r) => {
                &&& wf_node(self.arena@, r as int, self.height@, i64::MIN as int, i64::MAX as int + 1)
                &&& linked(self.arena@, leaf_seq(self.arena@, r as int, self.height@), None)
            },
        }
    }

    /// A well-formed tree's root, when there is one, is a well-formed
    /// subtree of the tree's height for all of `i64`: what
    /// [`BPlusTree::insert_data`] asks of the node it is called on.
    pub proof fn lemma_root_wf(&self)
        requires
            self.wf(),
        ensures
            self.spec_root() matches Some(r) ==> wf_node(
                self.nodes(),
                r as int,
                self.spec_height(),
                i64::MIN as int,
                i64::MAX as int + 1,
            ),
    {
    }

    /// What a search for `k` from the root finds.
    pub closed spec fn lookup_key(&self, k: i64) -> Option<V> {
        match self.root {
            None => None,
            Some(r) => lookup(self.arena@, r as int, self.height@, k as int),
        }
    }

    /// No node of the tree holds more than `order` keys.
    pub closed spec fn fits_order(&self) -> bool {
        arena_fits(self.arena@, self.order as int)
    }

    /// The split threshold the tree was made with.
    pub closed spec fn spec_order(&self) -> usize {
        self.order
    }

    /// The nodes of the arena.
    pub closed spec fn nodes(&self) -> Seq<Node<V>> {
        self.arena@
    }

    /// The position of the root, if the tree has one.
    pub closed spec fn spec_root(&self) -> Option<NodeId> {
        self.root
    }

    /// The height of the tree: 0 when the root is a leaf.
    pub closed spec fn spec_height(&self) -> nat {
        self.height@
    }

    /// An empty tree whose nodes split when they hold more than `order` keys.
    pub fn new(order: usize) -> (t: Self)
        ensures
            t.wf(),
            t@ == Map::<i64, V>::empty(),
            t.spec_order() == order,
            t.fits_order(),
            t.spec_root() is None,
            t.nodes().len() == 0,
            t.spec_height() == 0,
    {
        let t = Self { order, root: None, arena: Vec::new(), height: Ghost(0) };
        assert(t@ =~= Map::<i64, V>::empty());
        t
    }

    /// The value stored under `key`, if any.
    pub fn get(&self, key: &i64) -> (r: Option<&V>)
        requires
            self.wf(),
        ensures
            r matches Some(v) ==> self@.contains_key(*key) && *v == self@[*key],
            r is None ==> !self@.contains_key(*key),
    {
        if self.root.is_none() {
            return None;
        }
        let mut node_id = self.root.unwrap();
        let ghost mut h: nat = self.height@;
        let ghost mut lo: int = i64::MIN as int;
        let ghost mut hi: int = i64::MAX as int + 1;
        loop
            invariant
                wf_node(self.arena@, node_id as int, h, lo, hi),
                lo <= *key < hi,
                lookup(self.arena@, node_id as int, h, *key as int) == self.lookup_key(*key),
            decreases h,
        {
            match &self.arena[node_id] {
                Node::Internal { keys, children } => {
                    let i = upper_bound(keys, *key);
                    proof {
                        lemma_route(keys@, *key as int);
                        lo = child_lo(lo, keys@, i as int);
                        hi = child_hi(keys@, hi, i as int);
                        h = (h - 1) as nat;
                    }
                    node_id = children[i];
                },
                Node::Leaf { keys, values, .. } => {
                    let p = upper_bound(keys, *key);
                    proof {
                        lemma_route(keys@, *key as int);
                    }
                    if p > 0 && keys[p - 1] == *key {
                        return Some(&values[p - 1]);
                    }
                    return None;
                },
            }
        }
    }

    /// Inserts `key` and `value` into the leaf at `node_id`, which holds the
    /// keys in `[lo, hi)`, splitting it when it overflows.
    #[verifier::rlimit(50)]
    #[verifier::spinoff_prover]
    fn insert_into_leaf(&mut self, node_id: NodeId, key: i64, value: V, Ghost(lo): Ghost<int>, Ghost(hi): Ghost<int>) -> (r: Option<(i64, NodeId)>)
        requires
            wf_node(old(self).nodes(), node_id as int, 0, lo, hi),
            lo <= key < hi,
        ensures
            final(self).spec_order() == old(self).spec_order(),
            final(self).spec_root() == old(self).spec_root(),
            final(self).spec_height() == old(self).spec_height(),
            insert_outcome(old(self).nodes(), final(self).nodes(), node_id as int, 0, lo, hi, key, value, r),
            arena_fits(old(self).nodes(), old(self).spec_order() as int) && old(self).spec_order() >= 2
                ==> arena_fits(final(self).nodes(), old(self).spec_order() as int),
            chain_outcome(old(self).nodes(), final(self).nodes(), node_id as int, 0, r),
            node_layout(old(self).nodes(), final(self).nodes(), node_id as int, key, value, old(self).spec_order() as int, r),
            forall|x: int|
                0 <= x < old(self).nodes().len() && x != node_id ==> #[trigger] final(self).nodes()[x]
                    == old(self).nodes()[x],
            final(self).nodes().len() == old(self).nodes().len() + if r is Some { 1int } else { 0int },
            r matches Some((_, nid)) ==> nid == final(self).nodes().len() - 1,
            leaf_layout_at(
                old(self).nodes()[node_id as int],
                old(self).nodes().len(),
                final(self).nodes(),
                node_id as int,
                key,
                value,
                old(self).spec_order() as int,
                r,
            ),
    {
        let ghost a0 = self.arena@;
        let mut node = Node::Leaf { keys: Vec::new(), values: Vec::new(), next: None };
        self.arena.set_and_swap(node_id, &mut node);
        match node {
            Node::Leaf { mut keys, mut values, next } => {
                let ghost k0 = keys@;
                let ghost v0 = values@;
                let p = upper_bound(&keys, key);
                proof {
                    lemma_route(k0, key as int);
                }
                if p > 0 && keys[p - 1] == key {
                    values.set(p - 1, value);
                    proof {
                        lemma_leaf_overwrite(k0, v0, p as int, key, value);
                    }
                    self.arena.set(node_id, Node::Leaf { keys, values, next });
                    proof {
                        lemma_leaf_outcome(a0, self.arena@, node_id as int, lo, hi, key, value);
                        if arena_fits(a0, self.order as int) {
                            assert(key_count(a0[node_id as int]) == k0.len());
                            lemma_fits_update(a0, self.arena@, node_id as int, self.order as int);
                        }
                        lemma_chain_leaf(a0, self.arena@, node_id as int, None);
                        assert(leaf_is(self.arena@[node_id as int], k0, v0.update(p - 1, value), next));
                    }
                    return None;
                }
                keys.insert(p, key);
                values.insert(p, value);
                proof {
                    lemma_leaf_insert(k0, v0, p as int, key, value);
                    assert forall|j: int| 0 <= j < keys@.len() implies lo <= #[trigger] keys@[j] < hi by {
                        if j < p {
                            assert(keys@[j] == k0[j]);
                        } else if j > p {
                            assert(keys@[j] == k0[j - 1]);
                        }
                    }
                }
                if keys.len() <= self.order {
                    self.arena.set(node_id, Node::Leaf { keys, values, next });
                    proof {
                        lemma_leaf_outcome(a0, self.arena@, node_id as int, lo, hi, key, value);
                        if arena_fits(a0, self.order as int) {
                            lemma_fits_update(a0, self.arena@, node_id as int, self.order as int);
                        }
                        lemma_chain_leaf(a0, self.arena@, node_id as int, None);
                        assert(leaf_is(self.arena@[node_id as int], k0.insert(p as int, key), v0.insert(p as int, value), next));
                    }
                    None
                } else {
                    let ghost k1 = keys@;
                    let ghost v1 = values@;
                    let mid = self.order / 2;
                    let new_keys = keys.split_off(mid);
                    let new_values = values.split_off(mid);
                    let separator = new_keys[0];
                    let new_id = self.arena.len();
                    self.arena.set(node_id, Node::Leaf { keys, values, next: Some(new_id) });
                    self.arena.push(Node::Leaf { keys: new_keys, values: new_values, next });
                    proof {
                        lemma_leaf_split(k1, v1, mid as int);
                        assert forall|j: int| 0 <= j < keys@.len() implies lo <= #[trigger] keys@[j] < separator by {
                            assert(k1[j] < k1[mid as int]);
                        }
                        assert forall|j: int| 0 <= j < new_keys@.len() implies separator <= #[trigger] new_keys@[j] < hi by {
                            assert(new_keys@[j] == k1[j + mid]);
                            assert(k1[mid as int] <= k1[j + mid]);
                        }
                        assert(strictly_sorted(keys@));
                        assert(strictly_sorted(new_keys@));
                        lemma_leaf_split_outcome(a0, self.arena@, node_id as int, new_id, lo, hi, key, value, separator);
                        if arena_fits(a0, self.order as int) && self.order >= 2 {
                            assert(key_count(a0[node_id as int]) == k0.len());
                            assert(key_count(self.arena@[new_id as int]) == new_keys@.len());
                            lemma_fits_update(a0, self.arena@, node_id as int, self.order as int);
                        }
                        lemma_chain_leaf(a0, self.arena@, node_id as int, Some((separator, new_id)));
                        assert(k1 == k0.insert(p as int, key) && v1 == v0.insert(p as int, value));
                        assert(leaf_is(self.arena@[node_id as int], k1.subrange(0, mid as int), v1.subrange(0, mid as int), Some(new_id)));
                        assert(leaf_is(
                            self.arena@[new_id as int],
                            k1.subrange(mid as int, k1.len() as int),
                            v1.subrange(mid as int, v1.len() as int),
                            next,
                        ));
                    }
                    Some((separator, new_id))
                }
            },
            Node::Internal { .. } => {
                proof {
                    assert(false);
                }
                None
            },
        }
    }

    /// Links the node `new_child_id`, split off child `i` of the internal
    /// node `node_id` around `sep`, into `node_id`, splitting `node_id` in
    /// turn when it overflows.  `a0` is the arena before the insertion into
    /// the child began.
    #[verifier::rlimit(40)]
    #[verifier::spinoff_prover]
    fn link_split_child(
        &mut self,
        node_id: NodeId,
        i: usize,
        sep: i64,
        new_child_id: NodeId,
        Ghost(a0): Ghost<Seq<Node<V>>>,
        Ghost(h): Ghost<nat>,
        Ghost(lo): Ghost<int>,
        Ghost(hi): Ghost<int>,
        Ghost(key): Ghost<i64>,
        Ghost(value): Ghost<V>,
    ) -> (r: Option<(i64, NodeId)>)
        requires
            wf_node(a0, node_id as int, h, lo, hi),
            a0[node_id as int] is Internal,
            i == route(a0[node_id as int]->Internal_keys@, key as int),
            insert_outcome(
                a0,
                old(self).nodes(),
                a0[node_id as int]->children@[i as int] as int,
                (h - 1) as nat,
                child_lo(lo, a0[node_id as int]->Internal_keys@, i as int),
                child_hi(a0[node_id as int]->Internal_keys@, hi, i as int),
                key,
                value,
                Some((sep, new_child_id)),
            ),
            chain_outcome(
                a0,
                old(self).nodes(),
                a0[node_id as int]->children@[i as int] as int,
                (h - 1) as nat,
                Some((sep, new_child_id)),
            ),
        ensures
            final(self).spec_order() == old(self).spec_order(),
            final(self).spec_root() == old(self).spec_root(),
            final(self).spec_height() == old(self).spec_height(),
            insert_outcome(a0, final(self).nodes(), node_id as int, h, lo, hi, key, value, r),
            arena_fits(old(self).nodes(), old(self).spec_order() as int) ==> arena_fits(
                final(self).nodes(),
                old(self).spec_order() as int,
            ),
            chain_outcome(a0, final(self).nodes(), node_id as int, h, r),
            link_layout(
                a0[node_id as int]->Internal_keys@,
                a0[node_id as int]->children@,
                i as int,
                sep,
                new_child_id,
                final(self).nodes(),
                node_id as int,
                old(self).spec_order() as int,
                r,
            ),
            forall|x: int|
                0 <= x < old(self).nodes().len() && x != node_id ==> #[trigger] final(self).nodes()[x]
                    == old(self).nodes()[x],
            old(self).nodes().len() <= final(self).nodes().len() <= old(self).nodes().len() + 1,
            r matches Some((_, nid)) ==> nid == final(self).nodes().len() - 1,
            link_layout_at(
                a0[node_id as int]->Internal_keys@,
                a0[node_id as int]->children@,
                i as int,
                sep,
                new_child_id,
                a0.len(),
                final(self).nodes(),
                node_id as int,
                old(self).spec_order() as int,
                r,
            ),
    {
        let ghost a1 = self.arena@;
        let ghost keys0 = a0[node_id as int]->Internal_keys@;
        let ghost cs0 = a0[node_id as int]->children@;
        proof {
            lemma_route(keys0, key as int);
            lemma_children_reach(a0, keys0, cs0, h, lo, hi);
            lemma_reach_all(a0, cs0, (h - 1) as nat);
            assert(reach(a0, cs0[i as int] as int, (h - 1) as nat).contains(node_id as int) ==> reach_all(a0, cs0, (h - 1) as nat).contains(node_id as int));
            assert(a1[node_id as int] == a0[node_id as int]);
            assert(children_ok(a0, keys0, cs0, h, lo, hi));
            assert(i < cs0.len());
        }
        let mut node = Node::Leaf { keys: Vec::new(), values: Vec::new(), next: None };
        self.arena.set_and_swap(node_id, &mut node);
        match node {
            Node::Internal { mut keys, mut children } => {
                proof {
                    assert(keys@ == keys0 && children@ == cs0);
                    assert(i < children.len());
                }
                keys.insert(i, sep);
                children.insert(i + 1, new_child_id);
                if keys.len() <= self.order {
                    self.arena.set(node_id, Node::Internal { keys, children });
                    proof {
                        lemma_internal_grow_outcome(a0, a1, self.arena@, node_id as int, h, lo, hi, key, value, i as int, sep, new_child_id);
                        lemma_chain_grow(a0, a1, self.arena@, node_id as int, h, lo, hi, key, value, i as int, sep, new_child_id);
                        if arena_fits(a1, self.order as int) {
                            lemma_fits_update(a1, self.arena@, node_id as int, self.order as int);
                        }
                        assert(internal_is(self.arena@[node_id as int], keys0.insert(i as int, sep), cs0.insert(i + 1, new_child_id)));
                    }
                    None
                } else {
                    let ghost k1 = keys@;
                    let mid = self.order / 2;
                    let mut new_keys = keys.split_off(mid);
                    let new_children = children.split_off(mid + 1);
                    let separator = new_keys.remove(0);
                    let new_id = self.arena.len();
                    self.arena.set(node_id, Node::Internal { keys, children });
                    self.arena.push(Node::Internal { keys: new_keys, children: new_children });
                    proof {
                        assert(separator == k1[mid as int]);
                        assert(new_keys@ =~= k1.subrange(mid + 1, k1.len() as int));
                        assert(k1 == keys0.insert(i as int, sep));
                        assert(internal_is(
                            self.arena@[node_id as int],
                            k1.subrange(0, mid as int),
                            cs0.insert(i + 1, new_child_id).subrange(0, mid + 1),
                        ));
                        assert(internal_is(
                            self.arena@[new_id as int],
                            k1.subrange(mid + 1, k1.len() as int),
                            cs0.insert(i + 1, new_child_id).subrange(mid + 1, cs0.len() + 1int),
                        ));
                        lemma_internal_split_outcome(a0, a1, self.arena@, node_id as int, h, lo, hi, key, value, i as int, sep, new_child_id, mid as int, new_id);
                        lemma_chain_split(a0, a1, self.arena@, node_id as int, h, lo, hi, key, value, i as int, sep, new_child_id, mid as int, new_id);
                        if arena_fits(a1, self.order as int) {
                            assert(key_count(a1[node_id as int]) == keys0.len());
                            assert(k1.len() == keys0.len() + 1);
                            assert(key_count(self.arena@[new_id as int]) == new_keys@.len());
                            lemma_fits_update(a1, self.arena@, node_id as int, self.order as int);
                        }
                    }
                    Some((separator, new_id))
                }
            },
            Node::Leaf { .. } => {
                proof {
                    assert(false);
                }
                None
            },
        }
    }

    /// Inserts `key` and `value` into the subtree of height `h` rooted at
    /// `node_id`, which holds the keys in `[lo, hi)`.  A key already there
    /// gets the new value.  When the subtree's root overflows it is split:
    /// the result is the separator and the position of the new right-hand
    /// node, which the caller must link in.
    pub fn insert_data(
        &mut self,
        node_id: NodeId,
        key: i64,
        value: V,
        Ghost(h): Ghost<nat>,
        Ghost(lo): Ghost<int>,
        Ghost(hi): Ghost<int>,
    ) -> (r: Option<(i64, NodeId)>)
        requires
            wf_node(old(self).nodes(), node_id as int, h, lo, hi),
            lo <= key < hi,
        ensures
            final(self).spec_order() == old(self).spec_order(),
            final(self).spec_root() == old(self).spec_root(),
            final(self).spec_height() == old(self).spec_height(),
            insert_outcome(old(self).nodes(), final(self).nodes(), node_id as int, h, lo, hi, key, value, r),
            arena_fits(old(self).nodes(), old(self).spec_order() as int) && old(self).spec_order() >= 2
                ==> arena_fits(final(self).nodes(), old(self).spec_order() as int),
            chain_outcome(old(self).nodes(), final(self).nodes(), node_id as int, h, r),
            node_layout(old(self).nodes(), final(self).nodes(), node_id as int, key, value, old(self).spec_order() as int, r),
            r matches Some((_, nid)) ==> nid == final(self).nodes().len() - 1,
            forall|x: int|
                0 <= x < old(self).nodes().len() && !#[trigger] path(old(self).nodes(), node_id as int, h, key as int).contains(x)
                    ==> final(self).nodes()[x] == old(self).nodes()[x],
            final(self).nodes().len() <= old(self).nodes().len() + h + 1,
            old(self).nodes()[node_id as int] is Leaf ==> final(self).nodes().len() == old(self).nodes().len() + if r is Some {
                1int
            } else {
                0int
            },
            exists|rs: Seq<Option<(i64, NodeId)>>|
                #[trigger] path_layout(old(self).nodes(), final(self).nodes(), node_id as int, h, key, value, old(self).spec_order() as int, rs)
                    && rs[h as int] == r,
        decreases h,
    {
        let ghost a0 = self.arena@;
        let step: Option<(usize, NodeId)> = match &self.arena[node_id] {
            Node::Leaf { .. } => None,
            Node::Internal { keys, children } => {
                let i = upper_bound(keys, key);
                proof {
                    lemma_route(keys@, key as int);
                }
                Some((i, children[i]))
            },
        };
        match step {
            None => {
                let r = self.insert_into_leaf(node_id, key, value, Ghost(lo), Ghost(hi));
                proof {
                    assert(a0[node_id as int] is Leaf);
                    assert(h == 0);
                    assert(path(a0, node_id as int, h, key as int) == set![node_id as int]);
                    let rs = seq![r];
                    assert(path_layout(a0, self.arena@, node_id as int, h, key, value, self.order as int, rs));
                }
                r
            },
            Some((i, child_id)) => {
                let ghost keys0 = a0[node_id as int]->Internal_keys@;
                let ghost cs0 = a0[node_id as int]->children@;
                let ghost clo = child_lo(lo, keys0, i as int);
                let ghost chi = child_hi(keys0, hi, i as int);
                proof {
                    if i > 0 {
                        assert(keys0[i - 1] <= key);
                    }
                    if i < keys0.len() {
                        assert(keys0[i as int] > key);
                    }
                    assert(wf_node(a0, cs0[i as int] as int, (h - 1) as nat, clo, chi));
                }
                let result = self.insert_data(child_id, key, value, Ghost((h - 1) as nat), Ghost(clo), Ghost(chi));
                let ghost a1 = self.arena@;
                let ghost rs_c = choose|rs: Seq<Option<(i64, NodeId)>>|
                    #[trigger] path_layout(a0, a1, child_id as int, (h - 1) as nat, key, value, self.order as int, rs)
                        && rs[h - 1] == result;
                proof {
                    lemma_path_in_reach(a0, child_id as int, (h - 1) as nat, clo, chi, key as int);
                    lemma_reach(a0, child_id as int, (h - 1) as nat, clo, chi);
                    assert forall|p: int| #[trigger] path(a0, child_id as int, (h - 1) as nat, key as int).contains(p)
                        implies 0 <= p < a0.len() by {
                        assert(reach(a0, child_id as int, (h - 1) as nat).contains(p));
                    }
                    assert(path(a0, node_id as int, h, key as int) == set![node_id as int].union(
                        path(a0, cs0[i as int] as int, (h - 1) as nat, key as int),
                    ));
                    lemma_children_reach(a0, keys0, cs0, h, lo, hi);
                    lemma_reach_all(a0, cs0, (h - 1) as nat);
                    assert(reach(a0, cs0[i as int] as int, (h - 1) as nat).contains(node_id as int)
                        ==> reach_all(a0, cs0, (h - 1) as nat).contains(node_id as int));
                    lemma_reach(a0, node_id as int, h, lo, hi);
                    assert(a1[node_id as int] == a0[node_id as int]);
                }
                match result {
                    None => {
                        proof {
                            lemma_internal_outcome(a0, self.arena@, node_id as int, h, lo, hi, key, value, i as int);
                            lemma_chain_internal(a0, self.arena@, node_id as int, h, lo, hi, key, value, i as int);
                            let rs = rs_c.push(None::<(i64, NodeId)>);
                            assert(rs.take(h as int) =~= rs_c);
                            assert(path_layout(a0, self.arena@, node_id as int, h, key, value, self.order as int, rs));
                        }
                        None
                    },
                    Some((sep, new_child_id)) => {
                        let r = self.link_split_child(
                            node_id,
                            i,
                            sep,
                            new_child_id,
                            Ghost(a0),
                            Ghost(h),
                            Ghost(lo),
                            Ghost(hi),
                            Ghost(key),
                            Ghost(value),
                        );
                        proof {
                            assert(link_layout(keys0, cs0, route(keys0, key as int), sep, new_child_id, self.arena@, node_id as int, self.order as int, r));
                            assert(!reach(a0, child_id as int, (h - 1) as nat).contains(node_id as int));
                            lemma_path_layout_frame(a0, a1, self.arena@, child_id as int, (h - 1) as nat, key, value, self.order as int, rs_c, node_id as int);
                            let rs = rs_c.push(r);
                            assert(rs.take(h as int) =~= rs_c);
                            assert(path_layout(a0, self.arena@, node_id as int, h, key, value, self.order as int, rs));
                        }
                        r
                    },
                }
            },
        }
    }

    /// Inserts `key` with `value`; a key already there gets the new value.
    /// An empty tree first gets an empty leaf as its root; when the root
    /// splits, a new root above the two halves makes the tree one level
    /// taller.
    pub fn insert(&mut self, key: i64, value: V)
        requires
            old(self).wf(),
        ensures
            final(self).wf(),
            final(self)@ == old(self)@.insert(key, value),
            final(self).spec_order() == old(self).spec_order(),
            old(self).fits_order() && old(self).spec_order() >= 2 ==> final(self).fits_order(),
            root_outcome(
                old(self).spec_root(),
                old(self).spec_height(),
                old(self).nodes().len(),
                final(self).spec_root(),
                final(self).spec_height(),
                final(self).nodes(),
            ),
            old(self).spec_root() matches Some(r) ==> exists|rs: Seq<Option<(i64, NodeId)>>|
                #[trigger] path_layout(
                    old(self).nodes(),
                    final(self).nodes(),
                    r as int,
                    old(self).spec_height(),
                    key,
                    value,
                    old(self).spec_order() as int,
                    rs,
                ) && rs[old(self).spec_height() as int] == if final(self).spec_root() == old(self).spec_root() {
                    None
                } else {
                    Some((final(self).nodes().last()->Internal_keys@[0], (final(self).nodes().len() - 2) as NodeId))
                },
            old(self).spec_root() matches Some(r) ==> forall|x: int|
                0 <= x < old(self).nodes().len() && !#[trigger] path(old(self).nodes(), r as int, old(self).spec_height(), key as int).contains(x)
                    ==> final(self).nodes()[x] == old(self).nodes()[x],
            old(self).spec_root() is None && old(self).spec_order() >= 1 ==> {
                &&& final(self).spec_root() == Some(old(self).nodes().len() as NodeId)
                &&& final(self).nodes().len() == old(self).nodes().len() + 1
                &&& final(self).nodes().subrange(0, old(self).nodes().len() as int) == old(self).nodes()
                &&& leaf_is(final(self).nodes()[old(self).nodes().len() as int], seq![key], seq![value], None)
            },
    {
        let ghost v0 = self@;
        let root_id = match self.root {
            Some(id) => id,
            None => {
                let id = self.arena.len();
                self.arena.push(Node::Leaf { keys: Vec::new(), values: Vec::new(), next: None });
                self.root = Some(id);
                self.height = Ghost(0);
                proof {
                    assert(leaf_seq(self.arena@, id as int, 0) == seq![id as int]);
                    lemma_linked_one(self.arena@, id as int, None);
                    assert(self.wf());
                    assert(self@ =~= v0);
                }
                id
            },
        };
        let ghost a0 = self.arena@;
        let ghost h = self.height@;
        let ghost lo = i64::MIN as int;
        let ghost hi = i64::MAX as int + 1;
        let split = self.insert_data(root_id, key, value, Ghost(h), Ghost(lo), Ghost(hi));
        let ghost a1 = self.arena@;
        let ghost rs = choose|rs: Seq<Option<(i64, NodeId)>>|
            #[trigger] path_layout(a0, a1, root_id as int, h, key, value, self.order as int, rs) && rs[h as int] == split;
        proof {
            if old(self).spec_root() is None {
                assert(a0[root_id as int] is Leaf);
                lemma_route(a0[root_id as int]->Leaf_keys@, key as int);
                assert(a0[root_id as int]->Leaf_keys@.insert(0, key).len() == 1);
                if old(self).spec_order() >= 1 {
                    assert(split is None);
                    assert(a0.subrange(0, old(self).nodes().len() as int) =~= old(self).nodes());
                    assert(self.arena@.subrange(0, old(self).nodes().len() as int) =~= a0.subrange(0, old(self).nodes().len() as int)) by {
                        assert forall|x: int| 0 <= x < old(self).nodes().len() implies self.arena@[x] == a0[x] by {
                            assert(!path(a0, root_id as int, h, key as int).contains(x));
                        }
                    }
                    assert(seq![key] =~= a0[root_id as int]->Leaf_keys@.insert(0, key));
                    assert(seq![value] =~= a0[root_id as int]->Leaf_values@.insert(0, value));
                }
            }
        }
        if let Some((separator, new_id)) = split {
            let new_root_id = self.arena.len();
            let mut keys: Vec<i64> = Vec::new();
            keys.push(separator);
            let mut children: Vec<NodeId> = Vec::new();
            children.push(root_id);
            children.push(new_id);
            self.arena.push(Node::Internal { keys, children });
            self.root = Some(new_root_id);
            self.height = Ghost(h + 1);
            proof {
                let af = self.arena@;
                let ks = seq![separator];
                let cs = seq![root_id, new_id];
                assert(keys@ =~= ks);
                assert(children@ =~= cs);
                lemma_reach(a1, root_id as int, h, lo, separator as int);
                lemma_reach(a1, new_id as int, h, separator as int, hi);
                lemma_frame(a1, af, root_id as int, h, lo, separator as int);
                lemma_frame(a1, af, new_id as int, h, separator as int, hi);
                lemma_leaf_seq_frame(a1, af, root_id as int, h, lo, separator as int);
                lemma_leaf_seq_frame(a1, af, new_id as int, h, separator as int, hi);
                lemma_leaf_seq_wf(a1, new_id as int, h, separator as int, hi);
                let l_left = leaf_seq(a1, root_id as int, h);
                let l_right = leaf_seq(a1, new_id as int, h);
                assert(linked(a0, leaf_seq(a0, root_id as int, h), None));
                assert(seq![root_id, new_id] =~= seq![root_id] + seq![new_id]);
                lemma_leaf_seq_all_concat(af, seq![root_id], seq![new_id], h);
                lemma_leaf_seq_all_one(af, root_id, h);
                lemma_leaf_seq_all_one(af, new_id, h);
                assert(leaf_seq(af, new_root_id as int, h + 1) == l_left + l_right);
                lemma_linked_concat(af, l_left, l_right, None);
                assert(cs[0] == root_id && cs[1] == new_id);
                assert(children_ok(af, ks, cs, h + 1, lo, hi));
                lemma_reach_all(af, cs, h);
                assert(!reach_all(af, cs, h).contains(new_root_id as int)) by {
                    if reach_all(af, cs, h).contains(new_root_id as int) {
                        let j = choose|j: int| 0 <= j < cs.len() && #[trigger] reach(af, cs[j] as int, h).contains(new_root_id as int);
                        assert(j == 0 || j == 1);
                    }
                }
                assert(self.wf());
                assert forall|k: i64| #[trigger] self.lookup_key(k) == if k == key {
                    Some(value)
                } else {
                    lookup(a0, root_id as int, h, k as int)
                } by {
                    assert(self.lookup_key(k) == internal_lookup(af, ks, cs, h + 1, k as int));
                    lemma_route(ks, k as int);
                    if k < separator {
                        assert(route(ks, k as int) == 0);
                    } else {
                        assert(route(ks, k as int) == 1);
                    }
                    assert(lookup(a0, root_id as int, h, k as int) == lookup(a0, root_id as int, h, k as int));
                }
                assert(self@ =~= v0.insert(key, value));
                assert(af.drop_last() =~= a1);
                assert(af.last()->Internal_keys@[0] == separator);
                if old(self).spec_root() is Some {
                    lemma_path_in_reach(a0, root_id as int, h, lo, hi, key as int);
                    lemma_reach(a0, root_id as int, h, lo, hi);
                    assert forall|p: int| #[trigger] path(a0, root_id as int, h, key as int).contains(p) implies 0 <= p < a0.len() by {
                        assert(reach(a0, root_id as int, h).contains(p));
                    }
                    lemma_path_layout_frame(a0, a1, af, root_id as int, h, key, value, self.order as int, rs, -1);
                    assert(path_layout(a0, af, root_id as int, h, key, value, self.order as int, rs));
                }
            }
        } else {
            proof {
                assert(self@ =~= v0.insert(key, value));
            }
        }
    }
}


/// The leaves of a well-formed tree (as [`BPlusTree::new`] makes it and
/// [`BPlusTree::insert`] keeps it) are linked for scanning in key order:
/// each leaf's `next` is the leaf to its right, the last leaf's is `None`,
/// and every key of a leaf is below every key of the leaves after it.
pub proof fn law_leaves_linked<V>(t: BPlusTree<V>)
    requires
        t.wf(),
    ensures
        t.spec_root() matches Some(r) ==> {
            &&& linked(t.nodes(), leaf_seq(t.nodes(), r as int, t.spec_height()), None)
            &&& run_ordered(t.nodes(), leaf_seq(t.nodes(), r as int, t.spec_height()))
        },
{
    if let Some(r) = t.root {
        lemma_leaf_order(t.arena@, r as int, t.height@, i64::MIN as int, i64::MAX as int + 1);
    }
}

/// A search after an insert: the key just inserted is found with the value
/// inserted with it, and every other key is found as before, with the same
/// value.  `after` is what [`BPlusTree::insert`] leaves when called on
/// `before` with `key` and `value`.
pub proof fn law_get_after_insert<V>(before: BPlusTree<V>, after: BPlusTree<V>, key: i64, value: V, k: i64)
    requires
        after@ == before@.insert(key, value),
    ensures
        after@.contains_key(key),
        after@[key] == value,
        k != key ==> (after@.contains_key(k) <==> before@.contains_key(k)),
        k != key && before@.contains_key(k) ==> after@[k] == before@[k],
{
}

/// The map that inserting the pairs `kvs` in order into an empty map gives.
pub open spec fn inserted<V>(kvs: Seq<(i64, V)>) -> Map<i64, V>
    decreases kvs.len(),
{
    if kvs.len() == 0 {
        Map::empty()
    } else {
        inserted(kvs.drop_last()).insert(kvs.last().0, kvs.last().1)
    }
}

/// The keys of `inserted(kvs)` are those of the pairs.
pub proof fn lemma_inserted_dom<V>(kvs: Seq<(i64, V)>, k: i64)
    ensures
        inserted(kvs).contains_key(k) <==> exists|j: int| 0 <= j < kvs.len() && #[trigger] kvs[j].0 == k,
    decreases kvs.len(),
{
    if kvs.len() > 0 {
        let n = kvs.len() - 1;
        let ks = kvs.drop_last();
        lemma_inserted_dom(ks, k);
        assert(kvs.last() == kvs[n]);
        if exists|j: int| 0 <= j < ks.len() && #[trigger] ks[j].0 == k {
            let j = choose|j: int| 0 <= j < ks.len() && #[trigger] ks[j].0 == k;
            assert(kvs[j] == ks[j]);
        }
        if exists|j: int| 0 <= j < kvs.len() && #[trigger] kvs[j].0 == k {
            let j = choose|j: int| 0 <= j < kvs.len() && #[trigger] kvs[j].0 == k;
            if j < n {
                assert(ks[j] == kvs[j]);
            }
        }
    }
}

/// `inserted(kvs)` maps the key of pair `j` to its value when no later pair
/// has that key.
pub proof fn lemma_inserted_value<V>(kvs: Seq<(i64, V)>, j: int)
    requires
        0 <= j < kvs.len(),
        forall|m: int| j < m < kvs.len() ==> #[trigger] kvs[m].0 != kvs[j].0,
    ensures
        inserted(kvs).contains_key(kvs[j].0),
        inserted(kvs)[kvs[j].0] == kvs[j].1,
    decreases kvs.len(),
{
    let n = kvs.len() - 1;
    assert(kvs.last() == kvs[n]);
    if j < n {
        let ks = kvs.drop_last();
        assert(ks[j] == kvs[j]);
        assert forall|m: int| j < m < ks.len() implies #[trigger] ks[m].0 != ks[j].0 by {
            assert(ks[m] == kvs[m]);
        }
        lemma_inserted_value(ks, j);
        assert(kvs[n].0 != kvs[j].0);
    }
}

proof fn lemma_views_inserted<V>(views: Seq<Map<i64, V>>, kvs: Seq<(i64, V)>, n: int)
    requires
        views.len() == kvs.len() + 1,
        0 <= n <= kvs.len(),
        views[0] == Map::<i64, V>::empty(),
        forall|j: int| 0 <= j < kvs.len() ==> views[j + 1] == views[j].insert(#[trigger] kvs[j].0, kvs[j].1),
    ensures
        views[n] == inserted(kvs.take(n)),
    decreases n,
{
    if n > 0 {
        lemma_views_inserted(views, kvs, n - 1);
        assert(kvs.take(n).drop_last() =~= kvs.take(n - 1));
        assert(kvs.take(n).last() == kvs[n - 1]);
        assert(views[n] == views[n - 1].insert(kvs[n - 1].0, kvs[n - 1].1));
    } else {
        assert(kvs.take(0) =~= Seq::<(i64, V)>::empty());
    }
}

/// Searches after a run of inserts into a new tree: when `views` are the
/// views of a tree from [`BPlusTree::new`] (empty) through one
/// [`BPlusTree::insert`] of each pair of `kvs` in turn, the last one finds
/// exactly the keys inserted, each with the value of its last insert; so
/// [`BPlusTree::get`] of `k` gives that value, or `None` for a key never
/// inserted.
pub proof fn law_get_after_inserts<V>(views: Seq<Map<i64, V>>, kvs: Seq<(i64, V)>, k: i64)
    requires
        views.len() == kvs.len() + 1,
        views[0] == Map::<i64, V>::empty(),
        forall|j: int| 0 <= j < kvs.len() ==> views[j + 1] == views[j].insert(#[trigger] kvs[j].0, kvs[j].1),
    ensures
        views.last() == inserted(kvs),
        views.last().contains_key(k) <==> exists|j: int| 0 <= j < kvs.len() && #[trigger] kvs[j].0 == k,
        forall|j: int|
            0 <= j < kvs.len() && #[trigger] kvs[j].0 == k && (forall|m: int| j < m < kvs.len() ==> kvs[m].0 != k)
                ==> views.last()[k] == kvs[j].1,
{
    lemma_views_inserted(views, kvs, kvs.len() as int);
    assert(kvs.take(kvs.len() as int) =~= kvs);
    lemma_inserted_dom(kvs, k);
    assert forall|j: int|
        0 <= j < kvs.len() && #[trigger] kvs[j].0 == k && (forall|m: int| j < m < kvs.len() ==> kvs[m].0 != k)
        implies views.last()[k] == kvs[j].1 by {
        lemma_inserted_value(kvs, j);
    }
}

} // verus!
