//! A trie over code-point sequences that maps each key to a set of
//! identifiers and answers bounded, breadth-first prefix queries.
//!
//! The nodes live in one vector; an edge names its target by position. Each
//! node carries, as ghost state, the key that leads to it from the root.

use std::collections::VecDeque;
use vstd::hash_set::StringHashSet;
use vstd::prelude::*;

verus! {

/// What a trie holds: the set of (key, identifier) pairs inserted so far.
pub type Pairs = Set<(Seq<char>, Seq<char>)>;

/// The values of a list of strings, position by position.
pub open spec fn strings_view(v: Seq<String>) -> Seq<Seq<char>> {
    v.map_values(|s: String| s@)
}

/// `id` is stored under some key that starts with `prefix`.
pub open spec fn reachable(pairs: Pairs, prefix: Seq<char>, id: Seq<char>) -> bool {
    exists|key: Seq<char>| prefix.is_prefix_of(key) && #[trigger] pairs.contains((key, id))
}

/// `id` is stored under some key that starts with `prefix` and has at most
/// `depth` code points.
pub open spec fn reachable_within(
    pairs: Pairs,
    prefix: Seq<char>,
    id: Seq<char>,
    depth: int,
) -> bool {
    exists|key: Seq<char>|
        prefix.is_prefix_of(key) && key.len() <= depth && #[trigger] pairs.contains((key, id))
}

/// What a bounded breadth-first query for `prefix` may return from a trie
/// that holds `pairs`.
///
/// The result lists distinct identifiers, each stored under a key that starts
/// with `prefix`, and never more than `limit` of them. It stops short of
/// `limit` only when nothing is left out. Identifiers come shallowest key
/// first, and whatever is left out lies no shallower than anything listed.
/// Among identifiers of the same depth the order is open.
pub open spec fn is_find_result(
    pairs: Pairs,
    prefix: Seq<char>,
    limit: int,
    r: Seq<Seq<char>>,
) -> bool {
    &&& r.no_duplicates()
    &&& r.len() <= limit
    &&& forall|i: int| 0 <= i < r.len() ==> reachable(pairs, prefix, #[trigger] r[i])
    &&& r.len() < limit ==> forall|id: Seq<char>|
        reachable(pairs, prefix, id) ==> #[trigger] r.contains(id)
    &&& forall|i: int, j: int, d: int|
        #![trigger reachable_within(pairs, prefix, r[j], d), reachable_within(pairs, prefix, r[i], d)]
        0 <= i < j < r.len() && reachable_within(pairs, prefix, r[j], d) ==> reachable_within(
            pairs,
            prefix,
            r[i],
            d,
        )
    &&& forall|id: Seq<char>, i: int, d: int|
        #![trigger reachable_within(pairs, prefix, id, d), r[i]]
        0 <= i < r.len() && !r.contains(id) && reachable_within(pairs, prefix, id, d)
            ==> reachable_within(pairs, prefix, r[i], d)
}

/// One node of the trie.
struct TrieNode {
    children: Vec<(char, usize)>,
    ids: Vec<String>,
    is_word_end: bool,
    path: Ghost<Seq<char>>,
}

/// Edge `e` of node `n` leads to a node whose key is `n`'s key and one more
/// code point, the edge's label.
spec fn edge_ok(nodes: Seq<TrieNode>, n: int, e: int) -> bool {
    let edge = nodes[n].children@[e];
    &&& edge.1 < nodes.len()
    &&& nodes[edge.1 as int].path@ == nodes[n].path@.push(edge.0)
}

/// Some edge leads to node `j`.
spec fn has_parent(nodes: Seq<TrieNode>, j: int) -> bool {
    exists|n: int, e: int|
        0 <= n < nodes.len() && 0 <= e < nodes[n].children@.len() && (
        #[trigger] nodes[n].children@[e]).1 == j
}

/// A node marks a key's end exactly when it holds identifiers; it holds none
/// twice and has no two edges with the same label.
spec fn node_ok(node: TrieNode) -> bool {
    &&& node.is_word_end == (node.ids@.len() > 0)
    &&& forall|a: int, b: int|
        0 <= a < b < node.ids@.len() ==> (#[trigger] node.ids@[a])@ != (#[trigger] node.ids@[b])@
    &&& forall|a: int, b: int|
        0 <= a < b < node.children@.len() ==> (#[trigger] node.children@[a]).0 != (
        #[trigger] node.children@[b]).0
}

/// The nodes form a tree rooted at position 0 in which no two nodes have the
/// same key.
spec fn arena_wf(nodes: Seq<TrieNode>) -> bool {
    &&& nodes.len() > 0
    &&& nodes[0].path@ == Seq::<char>::empty()
    &&& forall|n: int, e: int|
        0 <= n < nodes.len() && 0 <= e < nodes[n].children@.len() ==> #[trigger] edge_ok(
            nodes,
            n,
            e,
        )
    &&& forall|j: int| 0 < j < nodes.len() ==> #[trigger] has_parent(nodes, j)
    &&& forall|m: int, n: int|
        0 <= m < nodes.len() && 0 <= n < nodes.len() && m != n ==> (#[trigger] nodes[m]).path@ != (
        #[trigger] nodes[n]).path@
    &&& forall|n: int| 0 <= n < nodes.len() ==> node_ok(#[trigger] nodes[n])
}

/// Node `n` holds `id`, at position `k` of its list, and `key` leads to it.
spec fn holds(nodes: Seq<TrieNode>, n: int, k: int, key: Seq<char>, id: Seq<char>) -> bool {
    &&& 0 <= n < nodes.len()
    &&& 0 <= k < nodes[n].ids@.len()
    &&& nodes[n].path@ == key
    &&& nodes[n].ids@[k]@ == id
}

/// The pairs that the nodes hold.
spec fn arena_pairs(nodes: Seq<TrieNode>) -> Pairs {
    Set::new(|p: (Seq<char>, Seq<char>)| exists|n: int, k: int| holds(nodes, n, k, p.0, p.1))
}

/// Where a node has no edge with label `c`, no node's key starts with that
/// node's key followed by `c`.
proof fn lemma_no_edge_no_extension(nodes: Seq<TrieNode>, n: int, c: char, m: int)
    requires
        arena_wf(nodes),
        0 <= n < nodes.len(),
        0 <= m < nodes.len(),
        forall|e: int| 0 <= e < nodes[n].children@.len() ==> (#[trigger] nodes[n].children@[e]).0 != c,
    ensures
        !nodes[n].path@.push(c).is_prefix_of(nodes[m].path@),
    decreases nodes[m].path@.len(),
{
    let q = nodes[n].path@.push(c);
    if q.is_prefix_of(nodes[m].path@) {
        assert(m != 0);
        assert(has_parent(nodes, m));
        let (p, e) = choose|p: int, e: int|
            0 <= p < nodes.len() && 0 <= e < nodes[p].children@.len() && (
            #[trigger] nodes[p].children@[e]).1 == m;
        assert(edge_ok(nodes, p, e));
        let label = nodes[p].children@[e].0;
        assert(nodes[m].path@ == nodes[p].path@.push(label));
        if nodes[m].path@.len() == q.len() {
            assert(nodes[m].path@ =~= q);
            assert(nodes[p].path@ =~= nodes[m].path@.drop_last());
            assert(nodes[n].path@ =~= q.drop_last());
            assert(label == q.last());
            assert(p == n);
            assert(false);
        } else {
            assert(q =~= nodes[p].path@.subrange(0, q.len() as int)) by {
                assert(q =~= nodes[m].path@.subrange(0, q.len() as int));
            }
            assert(q.is_prefix_of(nodes[p].path@));
            lemma_no_edge_no_extension(nodes, n, c, p);
        }
    }
}

impl TrieNode {
    /// A node for the key `path`, with no identifiers and no edges.
    fn new(path: Ghost<Seq<char>>) -> (node: TrieNode)
        ensures
            node.path@ == path@,
            node.children@.len() == 0,
            node.ids@.len() == 0,
            !node.is_word_end,
    {
        TrieNode { children: Vec::new(), ids: Vec::new(), is_word_end: false, path }
    }

    /// The target of the edge with label `c`, if there is one.
    fn child(&self, c: char) -> (r: Option<usize>)
        ensures
            match r {
                Some(j) => exists|e: int|
                    0 <= e < self.children@.len() && #[trigger] self.children@[e] == (c, j),
                None => forall|e: int|
                    0 <= e < self.children@.len() ==> (#[trigger] self.children@[e]).0 != c,
            },
    {
        let mut e: usize = 0;
        while e < self.children.len()
            invariant
                e <= self.children.len(),
                forall|f: int| 0 <= f < e ==> (#[trigger] self.children@[f]).0 != c,
            decreases self.children.len() - e,
        {
            if self.children[e].0 == c {
                return Some(self.children[e].1);
            }
            e += 1;
        }
        None
    }

    /// Whether the node holds `id`.
    fn has_id(&self, id: &String) -> (b: bool)
        ensures
            b == exists|k: int| 0 <= k < self.ids@.len() && (#[trigger] self.ids@[k])@ == id@,
    {
        let mut k: usize = 0;
        while k < self.ids.len()
            invariant
                k <= self.ids.len(),
                forall|a: int| 0 <= a < k ==> (#[trigger] self.ids@[a])@ != id@,
            decreases self.ids.len() - k,
        {
            if self.ids[k] == *id {
                return true;
            }
            k += 1;
        }
        false
    }
}

/// Gives node `n` a new child for label `c` and returns the child's position.
fn add_child(nodes: &mut Vec<TrieNode>, n: usize, c: char) -> (j: usize)
    requires
        arena_wf(old(nodes)@),
        n < old(nodes).len(),
        forall|e: int|
            0 <= e < old(nodes)[n as int].children@.len() ==> (
            #[trigger] old(nodes)[n as int].children@[e]).0 != c,
    ensures
        arena_wf(final(nodes)@),
        j < final(nodes).len(),
        final(nodes)[j as int].path@ == old(nodes)[n as int].path@.push(c),
        arena_pairs(final(nodes)@) == arena_pairs(old(nodes)@),
{
    let j = nodes.len();
    let ghost before = nodes@;
    let ghost path = nodes@[n as int].path@.push(c);
    nodes.push(TrieNode::new(Ghost(path)));
    nodes[n].children.push((c, j));
    proof {
        let after = nodes@;
        assert(after.len() == before.len() + 1);
        assert forall|m: int| 0 <= m < before.len() && m != n implies after[m] == before[m] by {}
        assert(after[n as int].path@ == before[n as int].path@);
        assert(after[n as int].ids@ == before[n as int].ids@);
        assert(after[n as int].is_word_end == before[n as int].is_word_end);
        assert(after[n as int].children@ == before[n as int].children@.push((c, j)));
        assert forall|m: int, e: int|
            0 <= m < after.len() && 0 <= e < after[m].children@.len() implies #[trigger] edge_ok(
            after,
            m,
            e,
        ) by {
            if m == n {
                if e < before[m].children@.len() {
                    assert(edge_ok(before, m, e));
                }
            } else {
                assert(edge_ok(before, m, e));
            }
        }
        assert forall|t: int| 0 < t < after.len() implies #[trigger] has_parent(after, t) by {
            if t == j {
                let e = before[n as int].children@.len() as int;
                assert(after[n as int].children@[e].1 == t);
            } else {
                assert(has_parent(before, t));
                let (p, e) = choose|p: int, e: int|
                    0 <= p < before.len() && 0 <= e < before[p].children@.len() && (
                    #[trigger] before[p].children@[e]).1 == t;
                assert(after[p].children@[e].1 == t);
            }
        }
        assert forall|a: int, b: int|
            0 <= a < after.len() && 0 <= b < after.len() && a != b implies (
        #[trigger] after[a]).path@ != (#[trigger] after[b]).path@ by {
            if a == j {
                lemma_no_edge_no_extension(before, n as int, c, b);
                assert(before[b].path@.is_prefix_of(before[b].path@));
            } else if b == j {
                lemma_no_edge_no_extension(before, n as int, c, a);
                assert(before[a].path@.is_prefix_of(before[a].path@));
            } else {
                assert(before[a].path@ != before[b].path@);
            }
        }
        assert forall|m: int| 0 <= m < after.len() implies node_ok(#[trigger] after[m]) by {
            if m < before.len() {
                assert(node_ok(before[m]));
            }
        }
        assert forall|p: (Seq<char>, Seq<char>)|
            arena_pairs(after).contains(p) == arena_pairs(before).contains(p) by {
            if arena_pairs(after).contains(p) {
                let (m, k) = choose|m: int, k: int| holds(after, m, k, p.0, p.1);
                assert(holds(before, m, k, p.0, p.1));
            }
            if arena_pairs(before).contains(p) {
                let (m, k) = choose|m: int, k: int| holds(before, m, k, p.0, p.1);
                assert(holds(after, m, k, p.0, p.1));
            }
        }
        assert(arena_pairs(after) =~= arena_pairs(before));
    }
    j
}

/// Stores `id` at node `n`, unless the node holds it already.
fn add_id(nodes: &mut Vec<TrieNode>, n: usize, id: String)
    requires
        arena_wf(old(nodes)@),
        n < old(nodes).len(),
    ensures
        arena_wf(final(nodes)@),
        arena_pairs(final(nodes)@) == arena_pairs(old(nodes)@).insert(
            (old(nodes)[n as int].path@, id@),
        ),
{
    let ghost before = nodes@;
    let ghost key = nodes@[n as int].path@;
    let ghost idv = id@;
    proof {
        assert(node_ok(before[n as int]));
    }
    nodes[n].is_word_end = true;
    let present = nodes[n].has_id(&id);
    if !present {
        nodes[n].ids.push(id);
    }
    proof {
        let after = nodes@;
        assert(after.len() == before.len());
        assert forall|m: int| 0 <= m < before.len() && m != n implies after[m] == before[m] by {}
        assert(after[n as int].path@ == key);
        assert(after[n as int].children@ == before[n as int].children@);
        assert(after[n as int].ids@ == if present {
            before[n as int].ids@
        } else {
            before[n as int].ids@.push(id)
        });
        assert forall|m: int, e: int|
            0 <= m < after.len() && 0 <= e < after[m].children@.len() implies #[trigger] edge_ok(
            after,
            m,
            e,
        ) by {
            assert(edge_ok(before, m, e));
        }
        assert forall|t: int| 0 < t < after.len() implies #[trigger] has_parent(after, t) by {
            assert(has_parent(before, t));
            let (p, e) = choose|p: int, e: int|
                0 <= p < before.len() && 0 <= e < before[p].children@.len() && (
                #[trigger] before[p].children@[e]).1 == t;
            assert(after[p].children@[e].1 == t);
        }
        assert forall|a: int, b: int|
            0 <= a < after.len() && 0 <= b < after.len() && a != b implies (
        #[trigger] after[a]).path@ != (#[trigger] after[b]).path@ by {
            assert(before[a].path@ != before[b].path@);
        }
        assert forall|m: int| 0 <= m < after.len() implies node_ok(#[trigger] after[m]) by {
            assert(node_ok(before[m]));
        }
        let target = arena_pairs(before).insert((key, idv));
        assert forall|p: (Seq<char>, Seq<char>)|
            arena_pairs(after).contains(p) == target.contains(p) by {
            if arena_pairs(after).contains(p) {
                let (m, k) = choose|m: int, k: int| holds(after, m, k, p.0, p.1);
                if m == n && k >= before[n as int].ids@.len() {
                    assert(p == (key, idv));
                } else {
                    assert(holds(before, m, k, p.0, p.1));
                }
            }
            if target.contains(p) {
                if p == (key, idv) {
                    if present {
                        let k = choose|k: int|
                            0 <= k < before[n as int].ids@.len() && (
                            #[trigger] before[n as int].ids@[k])@ == idv;
                        assert(holds(after, n as int, k, p.0, p.1));
                    } else {
                        let k = before[n as int].ids@.len() as int;
                        assert(holds(after, n as int, k, p.0, p.1));
                    }
                } else {
                    let (m, k) = choose|m: int, k: int| holds(before, m, k, p.0, p.1);
                    assert(holds(after, m, k, p.0, p.1));
                }
            }
        }
        assert(arena_pairs(after) =~= target);
    }
}

/// Walks down from the root along `word`, adding the nodes that are missing,
/// and returns the position of the node that `word` leads to.
fn descend(nodes: &mut Vec<TrieNode>, word: &str) -> (n: usize)
    requires
        arena_wf(old(nodes)@),
    ensures
        arena_wf(final(nodes)@),
        n < final(nodes).len(),
        final(nodes)[n as int].path@ == word@,
        arena_pairs(final(nodes)@) == arena_pairs(old(nodes)@),
{
    let mut node: usize = 0;
    assert(nodes@[0].path@ =~= word@.take(0));
    for c in it: word.chars()
        invariant
            it.seq() == word@,
            arena_wf(nodes@),
            node < nodes.len(),
            nodes@[node as int].path@ == word@.take(it.index() as int),
            arena_pairs(nodes@) == arena_pairs(old(nodes)@),
    {
        let ghost prev = word@.take(it.index() as int);
        let next = match nodes[node].child(c) {
            Some(j) => {
                proof {
                    let e = choose|e: int|
                        0 <= e < nodes@[node as int].children@.len() && (
                        #[trigger] nodes@[node as int].children@[e]) == (c, j);
                    assert(edge_ok(nodes@, node as int, e));
                }
                j
            },
            None => add_child(nodes, node, c),
        };
        assert(word@.take(it.index() + 1) =~= prev.push(c));
        node = next;
    }
    assert(word@.take(word@.len() as int) =~= word@);
    node
}

/// The position of the node that `prefix` leads to, if there is one.
fn lookup(nodes: &Vec<TrieNode>, prefix: &str) -> (r: Option<usize>)
    requires
        arena_wf(nodes@),
    ensures
        match r {
            Some(n) => n < nodes.len() && nodes@[n as int].path@ == prefix@,
            None => forall|m: int|
                0 <= m < nodes.len() ==> !prefix@.is_prefix_of((#[trigger] nodes@[m]).path@),
        },
{
    let mut node: usize = 0;
    assert(nodes@[0].path@ =~= prefix@.take(0));
    for c in it: prefix.chars()
        invariant
            it.seq() == prefix@,
            arena_wf(nodes@),
            node < nodes.len(),
            nodes@[node as int].path@ == prefix@.take(it.index() as int),
    {
        let ghost prev = prefix@.take(it.index() as int);
        assert(prefix@.take(it.index() + 1) =~= prev.push(c));
        match nodes[node].child(c) {
            Some(j) => {
                proof {
                    let e = choose|e: int|
                        0 <= e < nodes@[node as int].children@.len() && (
                        #[trigger] nodes@[node as int].children@[e]) == (c, j);
                    assert(edge_ok(nodes@, node as int, e));
                }
                node = j;
            },
            None => {
                proof {
                    let step = prev.push(c);
                    assert forall|m: int| 0 <= m < nodes.len() implies !prefix@.is_prefix_of(
                        (#[trigger] nodes@[m]).path@,
                    ) by {
                        lemma_no_edge_no_extension(nodes@, node as int, c, m);
                        if prefix@.is_prefix_of(nodes@[m].path@) {
                            assert(step =~= nodes@[m].path@.subrange(0, step.len() as int));
                        }
                    }
                }
                return None;
            },
        }
    }
    assert(prefix@.take(prefix@.len() as int) =~= prefix@);
    Some(node)
}

/// The number of code points in the key that leads to node `n`.
spec fn depth(nodes: Seq<TrieNode>, n: int) -> int {
    nodes[n].path@.len() as int
}

/// Node `m` lies at or below node `start`.
spec fn in_subtree(nodes: Seq<TrieNode>, start: int, m: int) -> bool {
    0 <= m < nodes.len() && nodes[start].path@.is_prefix_of(nodes[m].path@)
}

/// Item `a` of the node at position `k` of the visiting order has been dealt
/// with, when the first `d` nodes are finished and the next one is finished
/// up to item `a_done`.
spec fn dealt(d: int, a_done: int, k: int, a: int) -> bool {
    0 <= k < d || (k == d && 0 <= a < a_done)
}

/// Position `j` of the visiting order was reached over an edge that has
/// been followed.
spec fn came_from(nodes: Seq<TrieNode>, order: Seq<usize>, d: int, e_done: int, j: int) -> bool {
    exists|k: int, e: int|
        0 <= k < order.len() && 0 <= e < nodes[order[k] as int].children@.len() && dealt(
            d,
            e_done,
            k,
            e,
        ) && (#[trigger] nodes[order[k] as int].children@[e]).1 == order[j]
}

/// The state of a breadth-first walk from `start`: `order` lists the nodes
/// reached so far, the first `d` of them finished, and of the next one the
/// first `e_done` edges followed.
spec fn walk_inv(nodes: Seq<TrieNode>, start: int, order: Seq<usize>, d: int, e_done: int) -> bool {
    &&& 0 <= d <= order.len()
    &&& order.len() > 0
    &&& order[0] == start
    &&& 0 <= e_done
    &&& e_done > 0 ==> d < order.len() && e_done <= nodes[order[d] as int].children@.len()
    &&& forall|i: int| 0 <= i < order.len() ==> in_subtree(nodes, start, #[trigger] order[i] as int)
    &&& forall|i: int, j: int|
        0 <= i <= j < order.len() ==> depth(nodes, #[trigger] order[i] as int) <= depth(
            nodes,
            #[trigger] order[j] as int,
        )
    &&& forall|i: int|
        d < order.len() && 0 <= i < order.len() ==> depth(nodes, #[trigger] order[i] as int)
            <= depth(nodes, order[d] as int) + 1
    &&& order.no_duplicates()
    &&& forall|k: int, e: int|
        0 <= k < order.len() && 0 <= e < nodes[order[k] as int].children@.len() && dealt(
            d,
            e_done,
            k,
            e,
        ) ==> order.contains((#[trigger] nodes[order[k] as int].children@[e]).1)
    &&& forall|j: int| 0 < j < order.len() ==> #[trigger] came_from(nodes, order, d, e_done, j)
}

/// A list of distinct positions below `n` has at most `n` entries.
proof fn lemma_distinct_bounded(s: Seq<usize>, n: int)
    requires
        0 <= n,
        s.no_duplicates(),
        forall|i: int| 0 <= i < s.len() ==> (#[trigger] s[i]) < n,
    ensures
        s.len() <= n,
{
    let t = s.map_values(|x: usize| x as int);
    let range = vstd::set_lib::set_int_range(0, n);
    assert(t.no_duplicates());
    t.unique_seq_to_set();
    vstd::set_lib::lemma_int_range(0, n);
    assert forall|x: int| t.to_set().contains(x) implies range.contains(x) by {
        let i = choose|i: int| 0 <= i < t.len() && t[i] == x;
        assert(s[i] < n);
    }
    vstd::set_lib::lemma_len_subset(t.to_set(), range);
}

/// A node below `start`, other than `start`, has a parent below `start`.
proof fn lemma_parent_in_subtree(nodes: Seq<TrieNode>, start: int, m: int) -> (pe: (int, int))
    requires
        arena_wf(nodes),
        0 <= start < nodes.len(),
        in_subtree(nodes, start, m),
        m != start,
    ensures
        0 <= pe.0 < nodes.len(),
        0 <= pe.1 < nodes[pe.0].children@.len(),
        nodes[pe.0].children@[pe.1].1 == m,
        in_subtree(nodes, start, pe.0),
        depth(nodes, pe.0) + 1 == depth(nodes, m),
{
    assert(nodes[start].path@ != nodes[m].path@);
    if m == 0 {
        assert(nodes[start].path@ =~= nodes[m].path@);
    }
    assert(has_parent(nodes, m));
    let (p, e) = choose|p: int, e: int|
        0 <= p < nodes.len() && 0 <= e < nodes[p].children@.len() && (
        #[trigger] nodes[p].children@[e]).1 == m;
    assert(edge_ok(nodes, p, e));
    let sp = nodes[start].path@;
    let mp = nodes[m].path@;
    if sp.len() == mp.len() {
        assert(sp =~= mp);
    }
    assert(sp =~= nodes[p].path@.subrange(0, sp.len() as int)) by {
        assert(sp =~= mp.subrange(0, sp.len() as int));
    }
    (p, e)
}

/// In a walk with no node half done, every node below `start` that is
/// shallower than the next node to visit is finished; with no node left to
/// visit, every node below `start` is finished.
proof fn lemma_frontier(nodes: Seq<TrieNode>, start: int, order: Seq<usize>, d: int, m: int) -> (k:
    int)
    requires
        arena_wf(nodes),
        0 <= start < nodes.len(),
        walk_inv(nodes, start, order, d, 0),
        in_subtree(nodes, start, m),
        d == order.len() || depth(nodes, m) < depth(nodes, order[d] as int),
    ensures
        0 <= k < d,
        order[k] == m,
    decreases depth(nodes, m),
{
    if m == start {
        if d == 0 {
            assert(depth(nodes, order[0] as int) == depth(nodes, m));
        }
        0
    } else {
        let (p, e) = lemma_parent_in_subtree(nodes, start, m);
        let kp = lemma_frontier(nodes, start, order, d, p);
        assert(dealt(d, 0, kp, e));
        assert(order.contains(nodes[order[kp] as int].children@[e].1));
        let j = choose|j: int| 0 <= j < order.len() && order[j] == m;
        if j >= d {
            assert(depth(nodes, order[d] as int) <= depth(nodes, order[j] as int));
        }
        j
    }
}

/// Following the next edge of the node in hand keeps the walk in order.
proof fn lemma_follow_edge(nodes: Seq<TrieNode>, start: int, order: Seq<usize>, d: int, e: int)
    requires
        arena_wf(nodes),
        0 <= start < nodes.len(),
        walk_inv(nodes, start, order, d, e),
        d < order.len(),
        0 <= e < nodes[order[d] as int].children@.len(),
    ensures
        walk_inv(
            nodes,
            start,
            order.push(nodes[order[d] as int].children@[e].1),
            d,
            e + 1,
        ),
{
    let cur = order[d] as int;
    let edge = nodes[cur].children@[e];
    let t = edge.1;
    let next = order.push(t);
    assert(in_subtree(nodes, start, cur));
    assert(edge_ok(nodes, cur, e));
    assert(node_ok(nodes[cur]));
    let sp = nodes[start].path@;
    assert(in_subtree(nodes, start, t as int)) by {
        assert(sp =~= nodes[cur].path@.subrange(0, sp.len() as int));
        assert(sp =~= nodes[t as int].path@.subrange(0, sp.len() as int));
    }
    assert forall|j: int| 0 <= j < order.len() implies order[j] != t by {
        if order[j] == t {
            if j == 0 {
                assert(false);
            } else {
                assert(came_from(nodes, order, d, e, j));
                let (k, f) = choose|k: int, f: int|
                    0 <= k < order.len() && 0 <= f < nodes[order[k] as int].children@.len()
                        && dealt(d, e, k, f) && (#[trigger] nodes[order[k] as int].children@[f]).1
                        == order[j];
                let other = order[k] as int;
                assert(in_subtree(nodes, start, other));
                assert(edge_ok(nodes, other, f));
                let tp = nodes[t as int].path@;
                assert(nodes[other].path@ =~= tp.drop_last());
                assert(nodes[cur].path@ =~= tp.drop_last());
                assert(nodes[other].children@[f].0 == tp.last());
                assert(edge.0 == tp.last());
                if other != cur {
                    assert(nodes[other].path@ != nodes[cur].path@);
                }
                assert(k == d);
                assert(false);
            }
        }
    }
    assert(next.no_duplicates());
    assert forall|i: int| 0 <= i < next.len() implies in_subtree(
        nodes,
        start,
        #[trigger] next[i] as int,
    ) by {
        if i < order.len() {
            assert(in_subtree(nodes, start, order[i] as int));
        }
    }
    assert forall|i: int| 0 <= i < next.len() implies depth(nodes, #[trigger] next[i] as int)
        <= depth(nodes, next[d] as int) + 1 by {
        if i < order.len() {
            assert(depth(nodes, order[i] as int) <= depth(nodes, order[d] as int) + 1);
        }
    }
    assert forall|i: int, j: int| 0 <= i <= j < next.len() implies depth(
        nodes,
        #[trigger] next[i] as int,
    ) <= depth(nodes, #[trigger] next[j] as int) by {
        if j < order.len() {
            assert(depth(nodes, order[i] as int) <= depth(nodes, order[j] as int));
        } else if i < order.len() {
            assert(depth(nodes, order[i] as int) <= depth(nodes, order[d] as int) + 1);
        }
    }
    assert forall|k: int, f: int|
        0 <= k < next.len() && 0 <= f < nodes[next[k] as int].children@.len() && dealt(
            d,
            e + 1,
            k,
            f,
        ) implies next.contains((#[trigger] nodes[next[k] as int].children@[f]).1) by {
        if k == d && f == e {
            assert(next[order.len() as int] == t);
        } else {
            assert(dealt(d, e, k, f));
            let x = nodes[order[k] as int].children@[f].1;
            assert(order.contains(x));
            let i = choose|i: int| 0 <= i < order.len() && order[i] == x;
            assert(next[i] == x);
        }
    }
    assert forall|j: int| 0 < j < next.len() implies #[trigger] came_from(
        nodes,
        next,
        d,
        e + 1,
        j,
    ) by {
        if j == order.len() {
            assert(dealt(d, e + 1, d, e));
            assert(nodes[next[d] as int].children@[e].1 == next[j]);
        } else {
            assert(came_from(nodes, order, d, e, j));
            let (k, f) = choose|k: int, f: int|
                0 <= k < order.len() && 0 <= f < nodes[order[k] as int].children@.len() && dealt(
                    d,
                    e,
                    k,
                    f,
                ) && (#[trigger] nodes[order[k] as int].children@[f]).1 == order[j];
            assert(dealt(d, e + 1, k, f));
            assert(nodes[next[k] as int].children@[f].1 == next[j]);
        }
    }
}

/// Once every edge of the node in hand is followed, the node is finished.
proof fn lemma_finish_node(nodes: Seq<TrieNode>, start: int, order: Seq<usize>, d: int)
    requires
        arena_wf(nodes),
        0 <= start < nodes.len(),
        d < order.len(),
        walk_inv(nodes, start, order, d, nodes[order[d] as int].children@.len() as int),
    ensures
        walk_inv(nodes, start, order, d + 1, 0),
{
    let all = nodes[order[d] as int].children@.len() as int;
    assert forall|i: int| d + 1 < order.len() && 0 <= i < order.len() implies depth(
        nodes,
        #[trigger] order[i] as int,
    ) <= depth(nodes, order[d + 1] as int) + 1 by {
        assert(depth(nodes, order[i] as int) <= depth(nodes, order[d] as int) + 1);
        assert(depth(nodes, order[d] as int) <= depth(nodes, order[d + 1] as int));
    }
    assert forall|k: int, f: int|
        0 <= k < order.len() && 0 <= f < nodes[order[k] as int].children@.len() && dealt(
            d + 1,
            0,
            k,
            f,
        ) implies order.contains((#[trigger] nodes[order[k] as int].children@[f]).1) by {
        assert(dealt(d, all, k, f));
    }
    assert forall|j: int| 0 < j < order.len() implies #[trigger] came_from(
        nodes,
        order,
        d + 1,
        0,
        j,
    ) by {
        assert(came_from(nodes, order, d, all, j));
        let (k, f) = choose|k: int, f: int|
            0 <= k < order.len() && 0 <= f < nodes[order[k] as int].children@.len() && dealt(
                d,
                all,
                k,
                f,
            ) && (#[trigger] nodes[order[k] as int].children@[f]).1 == order[j];
        assert(dealt(d + 1, 0, k, f));
    }
}

/// `id` was met at a node of depth `level` among the items dealt with.
spec fn first_seen(
    nodes: Seq<TrieNode>,
    order: Seq<usize>,
    d: int,
    a_done: int,
    id: Seq<char>,
    level: int,
) -> bool {
    exists|k: int, a: int|
        0 <= k < order.len() && 0 <= a < nodes[order[k] as int].ids@.len() && dealt(
            d,
            a_done,
            k,
            a,
        ) && (#[trigger] nodes[order[k] as int].ids@[a])@ == id && depth(nodes, order[k] as int)
            == level
}

/// What has been collected when the first `d` nodes of `order` are finished
/// and the first `a_done` identifiers of the next one are dealt with: `ids`
/// lists, without repetition, the identifiers met so far, and `levels` the
/// depth at which each was met first; depths do not go down along the list.
spec fn found_inv(
    nodes: Seq<TrieNode>,
    order: Seq<usize>,
    d: int,
    a_done: int,
    ids: Seq<Seq<char>>,
    levels: Seq<int>,
) -> bool {
    &&& ids.len() == levels.len()
    &&& ids.no_duplicates()
    &&& 0 <= d <= order.len()
    &&& 0 <= a_done
    &&& a_done > 0 ==> d < order.len() && a_done <= nodes[order[d] as int].ids@.len()
    &&& forall|i: int|
        0 <= i < ids.len() ==> first_seen(nodes, order, d, a_done, #[trigger] ids[i], levels[i])
    &&& forall|k: int, a: int|
        0 <= k < order.len() && 0 <= a < nodes[order[k] as int].ids@.len() && dealt(
            d,
            a_done,
            k,
            a,
        ) ==> ids.contains((#[trigger] nodes[order[k] as int].ids@[a])@)
    &&& forall|i: int, k: int, a: int|
        0 <= i < ids.len() && 0 <= k < order.len() && 0 <= a < nodes[order[k] as int].ids@.len()
            && dealt(d, a_done, k, a) && (#[trigger] nodes[order[k] as int].ids@[a])@
            == #[trigger] ids[i] ==> levels[i] <= depth(nodes, order[k] as int)
    &&& forall|i: int, j: int|
        0 <= i <= j < levels.len() ==> #[trigger] levels[i] <= #[trigger] levels[j]
}

/// No identifier collected so far was met deeper than the node in hand.
proof fn lemma_levels_bounded(
    nodes: Seq<TrieNode>,
    start: int,
    order: Seq<usize>,
    d: int,
    a_done: int,
    ids: Seq<Seq<char>>,
    levels: Seq<int>,
    i: int,
    j: int,
)
    requires
        walk_inv(nodes, start, order, d, 0),
        found_inv(nodes, order, d, a_done, ids, levels),
        0 <= i < ids.len(),
        d <= j < order.len(),
    ensures
        levels[i] <= depth(nodes, order[j] as int),
{
    assert(first_seen(nodes, order, d, a_done, ids[i], levels[i]));
    let (k, a) = choose|k: int, a: int|
        0 <= k < order.len() && 0 <= a < nodes[order[k] as int].ids@.len() && dealt(
            d,
            a_done,
            k,
            a,
        ) && (#[trigger] nodes[order[k] as int].ids@[a])@ == ids[i] && depth(
            nodes,
            order[k] as int,
        ) == levels[i];
    assert(depth(nodes, order[k] as int) <= depth(nodes, order[j] as int));
}

/// Dealing with the next identifier of the node in hand: it joins the list
/// unless it is there already.
proof fn lemma_see_id(
    nodes: Seq<TrieNode>,
    start: int,
    order: Seq<usize>,
    d: int,
    a: int,
    ids: Seq<Seq<char>>,
    levels: Seq<int>,
)
    requires
        walk_inv(nodes, start, order, d, 0),
        found_inv(nodes, order, d, a, ids, levels),
        d < order.len(),
        0 <= a < nodes[order[d] as int].ids@.len(),
    ensures
        ({
            let x = nodes[order[d] as int].ids@[a]@;
            if ids.contains(x) {
                found_inv(nodes, order, d, a + 1, ids, levels)
            } else {
                found_inv(
                    nodes,
                    order,
                    d,
                    a + 1,
                    ids.push(x),
                    levels.push(depth(nodes, order[d] as int)),
                )
            }
        }),
{
    let cur = order[d] as int;
    let x = nodes[cur].ids@[a]@;
    let here = depth(nodes, cur);
    assert forall|i: int| 0 <= i < ids.len() implies levels[i] <= here by {
        lemma_levels_bounded(nodes, start, order, d, a, ids, levels, i, d);
    }
    assert forall|i: int| 0 <= i < ids.len() implies first_seen(
        nodes,
        order,
        d,
        a + 1,
        #[trigger] ids[i],
        levels[i],
    ) by {
        assert(first_seen(nodes, order, d, a, ids[i], levels[i]));
        let (k, b) = choose|k: int, b: int|
            0 <= k < order.len() && 0 <= b < nodes[order[k] as int].ids@.len() && dealt(
                d,
                a,
                k,
                b,
            ) && (#[trigger] nodes[order[k] as int].ids@[b])@ == ids[i] && depth(
                nodes,
                order[k] as int,
            ) == levels[i];
        assert(dealt(d, a + 1, k, b));
    }
    if ids.contains(x) {
        assert forall|k: int, b: int|
            0 <= k < order.len() && 0 <= b < nodes[order[k] as int].ids@.len() && dealt(
                d,
                a + 1,
                k,
                b,
            ) implies ids.contains((#[trigger] nodes[order[k] as int].ids@[b])@) by {
            if !(k == d && b == a) {
                assert(dealt(d, a, k, b));
            }
        }
        assert forall|i: int, k: int, b: int|
            0 <= i < ids.len() && 0 <= k < order.len() && 0 <= b < nodes[order[k] as int].ids@.len()
                && dealt(d, a + 1, k, b) && (#[trigger] nodes[order[k] as int].ids@[b])@
                == #[trigger] ids[i] implies levels[i] <= depth(nodes, order[k] as int) by {
            if !(k == d && b == a) {
                assert(dealt(d, a, k, b));
            }
        }
    } else {
        let ids2 = ids.push(x);
        let levels2 = levels.push(here);
        assert(ids2.no_duplicates());
        assert forall|i: int| 0 <= i < ids2.len() implies first_seen(
            nodes,
            order,
            d,
            a + 1,
            #[trigger] ids2[i],
            levels2[i],
        ) by {
            if i < ids.len() {
                assert(first_seen(nodes, order, d, a + 1, ids[i], levels[i]));
            } else {
                assert(dealt(d, a + 1, d, a));
                assert(nodes[order[d] as int].ids@[a]@ == ids2[i]);
            }
        }
        assert forall|k: int, b: int|
            0 <= k < order.len() && 0 <= b < nodes[order[k] as int].ids@.len() && dealt(
                d,
                a + 1,
                k,
                b,
            ) implies ids2.contains((#[trigger] nodes[order[k] as int].ids@[b])@) by {
            if k == d && b == a {
                assert(ids2[ids.len() as int] == x);
            } else {
                assert(dealt(d, a, k, b));
                let y = nodes[order[k] as int].ids@[b]@;
                assert(ids.contains(y));
                let i = choose|i: int| 0 <= i < ids.len() && ids[i] == y;
                assert(ids2[i] == y);
            }
        }
        assert forall|i: int, k: int, b: int|
            0 <= i < ids2.len() && 0 <= k < order.len() && 0 <= b
                < nodes[order[k] as int].ids@.len() && dealt(d, a + 1, k, b) && (
            #[trigger] nodes[order[k] as int].ids@[b])@
                == #[trigger] ids2[i] implies levels2[i] <= depth(nodes, order[k] as int) by {
            if k == d && b == a {
                if i < ids.len() {
                    assert(ids[i] == x);
                    assert(false);
                }
            } else {
                assert(dealt(d, a, k, b));
                if i < ids.len() {
                    assert(ids[i] == ids2[i]);
                } else {
                    assert(ids.contains(nodes[order[k] as int].ids@[b]@));
                    assert(false);
                }
            }
        }
        assert forall|i: int, j: int| 0 <= i <= j < levels2.len() implies #[trigger] levels2[i]
            <= #[trigger] levels2[j] by {
            if j < levels.len() {
                assert(levels[i] <= levels[j]);
            } else if i < levels.len() {
                assert(levels[i] <= here);
            }
        }
    }
}

/// Once every identifier of the node in hand is dealt with, and the node
/// finished, the collection stands for one more finished node; nodes that
/// were added to the end of the order meanwhile change nothing.
proof fn lemma_found_finish(
    nodes: Seq<TrieNode>,
    order: Seq<usize>,
    longer: Seq<usize>,
    d: int,
    ids: Seq<Seq<char>>,
    levels: Seq<int>,
)
    requires
        d < order.len() <= longer.len(),
        forall|k: int| 0 <= k < order.len() ==> #[trigger] longer[k] == order[k],
        found_inv(nodes, order, d, nodes[order[d] as int].ids@.len() as int, ids, levels),
    ensures
        found_inv(nodes, longer, d + 1, 0, ids, levels),
{
    let all = nodes[order[d] as int].ids@.len() as int;
    assert forall|i: int| 0 <= i < ids.len() implies first_seen(
        nodes,
        longer,
        d + 1,
        0,
        #[trigger] ids[i],
        levels[i],
    ) by {
        assert(first_seen(nodes, order, d, all, ids[i], levels[i]));
        let (k, b) = choose|k: int, b: int|
            0 <= k < order.len() && 0 <= b < nodes[order[k] as int].ids@.len() && dealt(
                d,
                all,
                k,
                b,
            ) && (#[trigger] nodes[order[k] as int].ids@[b])@ == ids[i] && depth(
                nodes,
                order[k] as int,
            ) == levels[i];
        assert(longer[k] == order[k]);
        assert(dealt(d + 1, 0, k, b));
        assert(nodes[longer[k] as int].ids@[b]@ == ids[i]);
    }
    assert forall|k: int, b: int|
        0 <= k < longer.len() && 0 <= b < nodes[longer[k] as int].ids@.len() && dealt(
            d + 1,
            0,
            k,
            b,
        ) implies ids.contains((#[trigger] nodes[longer[k] as int].ids@[b])@) by {
        assert(longer[k] == order[k]);
        assert(dealt(d, all, k, b));
        assert(ids.contains(nodes[order[k] as int].ids@[b]@));
    }
    assert forall|i: int, k: int, b: int|
        0 <= i < ids.len() && 0 <= k < longer.len() && 0 <= b < nodes[longer[k] as int].ids@.len()
            && dealt(d + 1, 0, k, b) && (#[trigger] nodes[longer[k] as int].ids@[b])@
            == #[trigger] ids[i] implies levels[i] <= depth(nodes, longer[k] as int) by {
        assert(longer[k] == order[k]);
        assert(dealt(d, all, k, b));
        assert(nodes[order[k] as int].ids@[b]@ == ids[i]);
    }
}

/// With no node half done, an identifier on the list was met no deeper than
/// any node below `start` that holds it.
proof fn lemma_level_minimal(
    nodes: Seq<TrieNode>,
    start: int,
    order: Seq<usize>,
    d: int,
    ids: Seq<Seq<char>>,
    levels: Seq<int>,
    i: int,
    m: int,
)
    requires
        arena_wf(nodes),
        0 <= start < nodes.len(),
        walk_inv(nodes, start, order, d, 0),
        found_inv(nodes, order, d, 0, ids, levels),
        0 <= i < ids.len(),
        in_subtree(nodes, start, m),
        (exists|a: int| 0 <= a < nodes[m].ids@.len() && (#[trigger] nodes[m].ids@[a])@ == ids[i])
            || forall|k: int| 0 <= k < d ==> #[trigger] order[k] != m,
    ensures
        levels[i] <= depth(nodes, m),
{
    if exists|k: int| 0 <= k < d && #[trigger] order[k] == m {
        let k = choose|k: int| 0 <= k < d && #[trigger] order[k] == m;
        if exists|a: int| 0 <= a < nodes[m].ids@.len() && (#[trigger] nodes[m].ids@[a])@ == ids[i] {
            let a = choose|a: int|
                0 <= a < nodes[m].ids@.len() && (#[trigger] nodes[m].ids@[a])@ == ids[i];
            assert(dealt(d, 0, k, a));
            assert(nodes[order[k] as int].ids@[a]@ == ids[i]);
        }
    } else {
        if d == order.len() || depth(nodes, m) < depth(nodes, order[d] as int) {
            let k = lemma_frontier(nodes, start, order, d, m);
            assert(false);
        } else {
            lemma_levels_bounded(nodes, start, order, d, 0, ids, levels, i, d);
        }
    }
}

/// A pair that the nodes hold under a key starting with `start`'s key sits
/// at a node below `start`.
proof fn lemma_pair_node(nodes: Seq<TrieNode>, start: int, key: Seq<char>, id: Seq<char>) -> (na:
    (int, int))
    requires
        0 <= start < nodes.len(),
        nodes[start].path@.is_prefix_of(key),
        arena_pairs(nodes).contains((key, id)),
    ensures
        in_subtree(nodes, start, na.0),
        0 <= na.1 < nodes[na.0].ids@.len(),
        nodes[na.0].ids@[na.1]@ == id,
        nodes[na.0].path@ == key,
{
    let (n, a) = choose|n: int, a: int| holds(nodes, n, a, key, id);
    (n, a)
}

/// What the walk has collected, cut to `limit`, is a result of the query,
/// provided the walk has no node left or has collected `limit` identifiers.
proof fn lemma_walk_result(
    nodes: Seq<TrieNode>,
    start: int,
    order: Seq<usize>,
    d: int,
    ids: Seq<Seq<char>>,
    levels: Seq<int>,
    limit: int,
)
    requires
        arena_wf(nodes),
        0 <= start < nodes.len(),
        0 <= limit,
        walk_inv(nodes, start, order, d, 0),
        found_inv(nodes, order, d, 0, ids, levels),
        d == order.len() || ids.len() >= limit,
    ensures
        is_find_result(
            arena_pairs(nodes),
            nodes[start].path@,
            limit,
            ids.take(if ids.len() <= limit {
                ids.len() as int
            } else {
                limit
            }),
        ),
{
    let pairs = arena_pairs(nodes);
    let prefix = nodes[start].path@;
    let n = if ids.len() <= limit {
        ids.len() as int
    } else {
        limit
    };
    let r = ids.take(n);
    assert(r.no_duplicates());
    // every listed identifier is stored at its level below `start`
    assert forall|i: int| 0 <= i < ids.len() implies reachable_within(
        pairs,
        prefix,
        #[trigger] ids[i],
        levels[i],
    ) by {
        assert(first_seen(nodes, order, d, 0, ids[i], levels[i]));
        let (k, a) = choose|k: int, a: int|
            0 <= k < order.len() && 0 <= a < nodes[order[k] as int].ids@.len() && dealt(d, 0, k, a)
                && (#[trigger] nodes[order[k] as int].ids@[a])@ == ids[i] && depth(
                nodes,
                order[k] as int,
            ) == levels[i];
        let m = order[k] as int;
        assert(in_subtree(nodes, start, m));
        let p = (nodes[m].path@, ids[i]);
        assert(holds(nodes, m, a, p.0, p.1));
        assert(pairs.contains(p));
    }
    assert forall|i: int| 0 <= i < r.len() implies reachable(pairs, prefix, #[trigger] r[i]) by {
        assert(reachable_within(pairs, prefix, ids[i], levels[i]));
        let key = choose|key: Seq<char>|
            prefix.is_prefix_of(key) && key.len() <= levels[i] && #[trigger] pairs.contains(
                (key, ids[i]),
            );
        assert(pairs.contains((key, r[i])));
    }
    if r.len() < limit {
        assert forall|id: Seq<char>| reachable(pairs, prefix, id) implies #[trigger] r.contains(
            id,
        ) by {
            let key = choose|key: Seq<char>|
                prefix.is_prefix_of(key) && #[trigger] pairs.contains((key, id));
            let (m, a) = lemma_pair_node(nodes, start, key, id);
            let k = lemma_frontier(nodes, start, order, d, m);
            assert(dealt(d, 0, k, a));
            assert(ids.contains(nodes[order[k] as int].ids@[a]@));
            assert(r =~= ids);
        }
    }
    // a depth that reaches identifier `id` reaches every identifier listed no later
    assert forall|i: int, j: int, dd: int|
        #![trigger reachable_within(pairs, prefix, r[j], dd), reachable_within(pairs, prefix, r[i], dd)]
        0 <= i < j < r.len() && reachable_within(pairs, prefix, r[j], dd) implies reachable_within(
        pairs,
        prefix,
        r[i],
        dd,
    ) by {
        let key = choose|key: Seq<char>|
            prefix.is_prefix_of(key) && key.len() <= dd && #[trigger] pairs.contains((key, r[j]));
        let (m, a) = lemma_pair_node(nodes, start, key, r[j]);
        assert(nodes[m].ids@[a]@ == ids[j]);
        lemma_level_minimal(nodes, start, order, d, ids, levels, j, m);
        assert(levels[i] <= levels[j]);
        assert(reachable_within(pairs, prefix, ids[i], levels[i]));
        let key_i = choose|key_i: Seq<char>|
            prefix.is_prefix_of(key_i) && key_i.len() <= levels[i] && #[trigger] pairs.contains(
                (key_i, ids[i]),
            );
        assert(pairs.contains((key_i, r[i])));
    }
    assert forall|id: Seq<char>, i: int, dd: int|
        #![trigger reachable_within(pairs, prefix, id, dd), r[i]]
        0 <= i < r.len() && !r.contains(id) && reachable_within(
            pairs,
            prefix,
            id,
            dd,
        ) implies reachable_within(pairs, prefix, r[i], dd) by {
        let key = choose|key: Seq<char>|
            prefix.is_prefix_of(key) && key.len() <= dd && #[trigger] pairs.contains((key, id));
        let (m, a) = lemma_pair_node(nodes, start, key, id);
        if ids.contains(id) {
            let t = choose|t: int| 0 <= t < ids.len() && ids[t] == id;
            if t < n {
                assert(r[t] == id);
                assert(false);
            }
            assert(nodes[m].ids@[a]@ == ids[t]);
            lemma_level_minimal(nodes, start, order, d, ids, levels, t, m);
            assert(levels[i] <= levels[t]);
        } else {
            assert forall|k: int| 0 <= k < d implies #[trigger] order[k] != m by {
                if order[k] == m {
                    assert(dealt(d, 0, k, a));
                    assert(ids.contains(nodes[order[k] as int].ids@[a]@));
                }
            }
            lemma_level_minimal(nodes, start, order, d, ids, levels, i, m);
        }
        assert(reachable_within(pairs, prefix, ids[i], levels[i]));
        let key_i = choose|key_i: Seq<char>|
            prefix.is_prefix_of(key_i) && key_i.len() <= levels[i] && #[trigger] pairs.contains(
                (key_i, ids[i]),
            );
        assert(pairs.contains((key_i, r[i])));
    }
}

/// `ids`, followed by those of the first `n` identifiers of `list` that
/// were not there before, in the order of `list`.
spec fn with_ids(ids: Seq<Seq<char>>, list: Seq<String>, n: int) -> Seq<Seq<char>>
    decreases n,
{
    if n <= 0 {
        ids
    } else {
        let before = with_ids(ids, list, n - 1);
        if before.contains(list[n - 1]@) {
            before
        } else {
            before.push(list[n - 1]@)
        }
    }
}

/// The nodes that a node's edges lead to, in the order of the edges.
spec fn targets(children: Seq<(char, usize)>) -> Seq<usize> {
    children.map_values(|edge: (char, usize)| edge.1)
}

/// What a breadth-first walk collects from the state (`queue`, `ids`) on:
/// it takes the node at the head of the queue, adds that node's new
/// identifiers to `ids` and its children to the end of the queue, and goes
/// on until the queue is empty or `limit` identifiers are collected.
spec fn walk(
    nodes: Seq<TrieNode>,
    queue: Seq<usize>,
    ids: Seq<Seq<char>>,
    limit: int,
    fuel: nat,
) -> Seq<Seq<char>>
    decreases fuel,
{
    if fuel == 0 || queue.len() == 0 || ids.len() >= limit {
        ids
    } else {
        let node = nodes[queue[0] as int];
        walk(
            nodes,
            queue.skip(1) + targets(node.children@),
            with_ids(ids, node.ids@, node.ids@.len() as int),
            limit,
            (fuel - 1) as nat,
        )
    }
}

/// The first `limit` of `ids`, or all of them if they are fewer.
spec fn cut(ids: Seq<Seq<char>>, limit: int) -> Seq<Seq<char>> {
    ids.take(if ids.len() <= limit {
        ids.len() as int
    } else {
        limit
    })
}

/// Adds to `ids` the identifiers of the node in hand that are not there yet.
fn collect_ids(
    nodes: &Vec<TrieNode>,
    cur: usize,
    ids: &mut Vec<String>,
    found_ids: &mut StringHashSet,
    Ghost(start): Ghost<int>,
    Ghost(order): Ghost<Seq<usize>>,
    Ghost(d): Ghost<int>,
    Ghost(levels): Ghost<Seq<int>>,
) -> (new_levels: Ghost<Seq<int>>)
    requires
        walk_inv(nodes@, start, order, d, 0),
        d < order.len(),
        order[d] == cur,
        cur < nodes.len(),
        found_inv(nodes@, order, d, 0, strings_view(old(ids)@), levels),
        old(found_ids)@ == strings_view(old(ids)@).to_set(),
    ensures
        found_inv(
            nodes@,
            order,
            d,
            nodes@[cur as int].ids@.len() as int,
            strings_view(final(ids)@),
            new_levels@,
        ),
        final(found_ids)@ == strings_view(final(ids)@).to_set(),
        strings_view(final(ids)@) == with_ids(
            strings_view(old(ids)@),
            nodes@[cur as int].ids@,
            nodes@[cur as int].ids@.len() as int,
        ),
{
    let ghost mut lv = levels;
    let ghost first = strings_view(ids@);
    let mut a: usize = 0;
    while a < nodes[cur].ids.len()
        invariant
            a <= nodes@[cur as int].ids@.len(),
            strings_view(ids@) == with_ids(first, nodes@[cur as int].ids@, a as int),
            walk_inv(nodes@, start, order, d, 0),
            d < order.len(),
            order[d] == cur,
            cur < nodes.len(),
            found_inv(nodes@, order, d, a as int, strings_view(ids@), lv),
            found_ids@ == strings_view(ids@).to_set(),
        decreases nodes@[cur as int].ids@.len() - a,
    {
        let ghost before = strings_view(ids@);
        proof {
            lemma_see_id(nodes@, start, order, d, a as int, before, lv);
        }
        let id = &nodes[cur].ids[a];
        if !found_ids.contains(id.as_str()) {
            ids.push(id.clone());
            found_ids.insert(id.clone());
            proof {
                lv = lv.push(depth(nodes@, cur as int));
                assert(strings_view(ids@) =~= before.push(id@));
                assert(before.push(id@).to_set() =~= before.to_set().insert(id@)) by {
                    let after = before.push(id@);
                    assert forall|x: Seq<char>| after.to_set().contains(x) implies before.to_set().insert(
                        id@,
                    ).contains(x) by {
                        let i = choose|i: int| 0 <= i < after.len() && after[i] == x;
                        if i < before.len() {
                            assert(before[i] == x);
                        }
                    }
                    assert forall|x: Seq<char>|
                        before.to_set().insert(id@).contains(x) implies after.to_set().contains(
                        x,
                    ) by {
                        if x == id@ {
                            assert(after[before.len() as int] == x);
                        } else {
                            let i = choose|i: int| 0 <= i < before.len() && before[i] == x;
                            assert(after[i] == x);
                        }
                    }
                }
            }
        }
        a += 1;
    }
    Ghost(lv)
}

/// Puts the children of the node in hand at the end of the queue.
fn follow_edges(
    nodes: &Vec<TrieNode>,
    cur: usize,
    queue: &mut VecDeque<usize>,
    Ghost(start): Ghost<int>,
    Ghost(order): Ghost<Seq<usize>>,
    Ghost(d): Ghost<int>,
) -> (longer: Ghost<Seq<usize>>)
    requires
        arena_wf(nodes@),
        0 <= start < nodes.len(),
        walk_inv(nodes@, start, order, d, 0),
        d < order.len(),
        order[d] == cur,
        cur < nodes.len(),
        old(queue)@ == order.skip(d + 1),
    ensures
        walk_inv(nodes@, start, longer@, d + 1, 0),
        final(queue)@ == longer@.skip(d + 1),
        final(queue)@ == old(queue)@ + targets(nodes@[cur as int].children@),
        order.len() <= longer@.len(),
        forall|k: int| 0 <= k < order.len() ==> #[trigger] longer@[k] == order[k],
{
    let ghost mut ord = order;
    let ghost first = queue@;
    let mut e: usize = 0;
    assert(queue@ =~= first + targets(nodes@[cur as int].children@).take(0));
    while e < nodes[cur].children.len()
        invariant
            e <= nodes@[cur as int].children@.len(),
            queue@ == first + targets(nodes@[cur as int].children@).take(e as int),
            arena_wf(nodes@),
            0 <= start < nodes.len(),
            cur < nodes.len(),
            d < ord.len(),
            ord[d] == cur,
            walk_inv(nodes@, start, ord, d, e as int),
            queue@ == ord.skip(d + 1),
            order.len() <= ord.len(),
            forall|k: int| 0 <= k < order.len() ==> #[trigger] ord[k] == order[k],
        decreases nodes@[cur as int].children@.len() - e,
    {
        proof {
            lemma_follow_edge(nodes@, start, ord, d, e as int);
        }
        let target = nodes[cur].children[e].1;
        queue.push_back(target);
        proof {
            ord = ord.push(target);
            assert(queue@ =~= ord.skip(d + 1));
            let all = targets(nodes@[cur as int].children@);
            assert(all.take(e + 1) =~= all.take(e as int).push(target));
            assert(queue@ =~= first + all.take(e + 1));
        }
        e += 1;
    }
    proof {
        lemma_finish_node(nodes@, start, ord, d);
        let all = targets(nodes@[cur as int].children@);
        assert(all.take(all.len() as int) =~= all);
    }
    Ghost(ord)
}

/// A prefix tree from keys to sets of identifiers.
pub struct Trie {
    nodes: Vec<TrieNode>,
}

impl View for Trie {
    type V = Pairs;

    closed spec fn view(&self) -> Pairs {
        arena_pairs(self.nodes@)
    }
}

impl Trie {
    /// Until the first insertion there are no nodes; from then on the nodes
    /// form a tree.
    #[verifier::type_invariant]
    spec fn wf(self) -> bool {
        self.nodes@.len() == 0 || arena_wf(self.nodes@)
    }

    /// What a query for `prefix` with the given limit returns from this
    /// trie. The answer depends on the trie alone; among identifiers of the
    /// same depth, the order in which they were inserted decides.
    pub closed spec fn find_spec(&self, prefix: Seq<char>, limit: int) -> Seq<Seq<char>> {
        if exists|n: int| 0 <= n < self.nodes@.len() && (#[trigger] self.nodes@[n]).path@ == prefix {
            let n = choose|n: int|
                0 <= n < self.nodes@.len() && (#[trigger] self.nodes@[n]).path@ == prefix;
            cut(
                walk(
                    self.nodes@,
                    seq![n as usize],
                    Seq::<Seq<char>>::empty(),
                    limit,
                    self.nodes@.len(),
                ),
                limit,
            )
        } else {
            Seq::<Seq<char>>::empty()
        }
    }

    /// An empty trie.
    pub fn new() -> (t: Trie)
        ensures
            t@ == Set::<(Seq<char>, Seq<char>)>::empty(),
    {
        let t = Trie { nodes: Vec::new() };
        assert(t@ =~= Set::<(Seq<char>, Seq<char>)>::empty());
        t
    }

    /// Stores `id` under the key `word`. Storing a pair a second time
    /// changes nothing.
    pub fn insert(&mut self, word: String, id: String)
        ensures
            final(self)@ == old(self)@.insert((word@, id@)),
    {
        proof {
            use_type_invariant(&*self);
        }
        let mut nodes: Vec<TrieNode> = Vec::new();
        std::mem::swap(&mut nodes, &mut self.nodes);
        if nodes.len() == 0 {
            nodes.push(TrieNode::new(Ghost(Seq::empty())));
            proof {
                assert(node_ok(nodes@[0]));
                assert(arena_wf(nodes@));
                assert(arena_pairs(nodes@) =~= old(self)@);
            }
        }
        let n = descend(&mut nodes, word.as_str());
        add_id(&mut nodes, n, id);
        self.nodes = nodes;
    }

    /// The position of the node that `prefix` leads to, if there is one.
    fn starts_with(&self, prefix: &str) -> (r: Option<usize>)
        ensures
            match r {
                Some(n) => n < self.nodes.len() && arena_wf(self.nodes@)
                    && self.nodes@[n as int].path@ == prefix@,
                None => (forall|id: Seq<char>| !reachable(self@, prefix@, id)) && forall|m: int|
                    0 <= m < self.nodes.len() ==> (#[trigger] self.nodes@[m]).path@ != prefix@,
            },
    {
        proof {
            use_type_invariant(self);
        }
        if self.nodes.len() == 0 {
            return None;
        }
        let r = lookup(&self.nodes, prefix);
        proof {
            if r.is_none() {
                assert forall|m: int| 0 <= m < self.nodes.len() implies (
                #[trigger] self.nodes@[m]).path@ != prefix@ by {
                    assert(!prefix@.is_prefix_of(self.nodes@[m].path@));
                    assert(prefix@.is_prefix_of(prefix@));
                }
                assert forall|id: Seq<char>| !reachable(self@, prefix@, id) by {
                    if reachable(self@, prefix@, id) {
                        let key = choose|key: Seq<char>|
                            prefix@.is_prefix_of(key) && #[trigger] self@.contains((key, id));
                        let (n, k) = choose|n: int, k: int| holds(self.nodes@, n, k, key, id);
                        assert(prefix@.is_prefix_of(self.nodes@[n].path@));
                    }
                }
            }
        }
        r
    }

    /// The identifiers stored at or below `node`, breadth first, each once,
    /// and no more than `limit` of them.
    fn get_all_ids_from(&self, node: usize, limit: usize) -> (r: Vec<String>)
        requires
            arena_wf(self.nodes@),
            node < self.nodes.len(),
        ensures
            is_find_result(self@, self.nodes@[node as int].path@, limit as int, strings_view(r@)),
            strings_view(r@) == cut(
                walk(
                    self.nodes@,
                    seq![node],
                    Seq::<Seq<char>>::empty(),
                    limit as int,
                    self.nodes@.len(),
                ),
                limit as int,
            ),
    {
        let nodes = &self.nodes;
        let ghost start = node as int;
        let mut found_ids = StringHashSet::new();
        let mut ids: Vec<String> = Vec::new();
        let mut queue: VecDeque<usize> = VecDeque::new();
        queue.push_back(node);
        let ghost mut order: Seq<usize> = seq![node];
        let ghost mut d: int = 0;
        let ghost mut levels: Seq<int> = Seq::empty();
        proof {
            assert(nodes@[start].path@.is_prefix_of(nodes@[start].path@));
            assert(walk_inv(nodes@, start, order, 0, 0));
            assert(strings_view(ids@) =~= Seq::<Seq<char>>::empty());
            assert(found_inv(nodes@, order, 0, 0, strings_view(ids@), levels));
            assert(found_ids@ =~= strings_view(ids@).to_set());
            assert(queue@ =~= order.skip(0));
        }
        loop
            invariant_except_break
                queue@ == order.skip(d),
            invariant
                nodes == &self.nodes,
                arena_wf(nodes@),
                start == node,
                0 <= start < nodes.len(),
                walk_inv(nodes@, start, order, d, 0),
                found_inv(nodes@, order, d, 0, strings_view(ids@), levels),
                found_ids@ == strings_view(ids@).to_set(),
                d <= nodes.len(),
                walk(nodes@, seq![node], Seq::<Seq<char>>::empty(), limit as int, nodes@.len())
                    == walk(
                    nodes@,
                    queue@,
                    strings_view(ids@),
                    limit as int,
                    (nodes.len() - d) as nat,
                ),
            ensures
                d == order.len() || ids.len() >= limit,
                walk(nodes@, seq![node], Seq::<Seq<char>>::empty(), limit as int, nodes@.len())
                    == strings_view(ids@),
            decreases nodes.len() - d,
        {
            let ghost waiting = queue@;
            let next = queue.pop_front();
            if next.is_none() {
                break ;
            }
            if ids.len() >= limit {
                break ;
            }
            let cur = next.unwrap();
            proof {
                assert(cur == order.skip(d)[0]);
                assert(queue@ =~= order.skip(d + 1));
                assert(in_subtree(nodes@, start, order[d] as int));
                assert forall|i: int| 0 <= i < order.len() implies (#[trigger] order[i])
                    < nodes.len() by {
                    assert(in_subtree(nodes@, start, order[i] as int));
                }
                lemma_distinct_bounded(order, nodes.len() as int);
                assert(node_ok(nodes@[cur as int]));
            }
            let ghost seen = strings_view(ids@);
            if nodes[cur].is_word_end {
                let collected = collect_ids(
                    nodes,
                    cur,
                    &mut ids,
                    &mut found_ids,
                    Ghost(start),
                    Ghost(order),
                    Ghost(d),
                    Ghost(levels),
                );
                proof {
                    levels = collected@;
                }
            }
            let longer = follow_edges(nodes, cur, &mut queue, Ghost(start), Ghost(order), Ghost(d));
            proof {
                lemma_found_finish(nodes@, order, longer@, d, strings_view(ids@), levels);
                let fuel = (nodes.len() - d) as nat;
                let found = with_ids(
                    seen,
                    nodes@[cur as int].ids@,
                    nodes@[cur as int].ids@.len() as int,
                );
                assert(waiting.skip(1) =~= waiting.subrange(1, waiting.len() as int));
                assert(strings_view(ids@) == found);
                assert(queue@ == waiting.skip(1) + targets(nodes@[cur as int].children@));
                assert(walk(nodes@, waiting, seen, limit as int, fuel) == walk(
                    nodes@,
                    queue@,
                    found,
                    limit as int,
                    (fuel - 1) as nat,
                ));
                order = longer@;
                d = d + 1;
            }
        }
        let ghost all = strings_view(ids@);
        ids.truncate(limit);
        proof {
            lemma_walk_result(nodes@, start, order, d, all, levels, limit as int);
            let n = if all.len() <= limit {
                all.len() as int
            } else {
                limit as int
            };
            assert(strings_view(ids@) =~= all.take(n));
            assert(strings_view(ids@) == cut(all, limit as int));
        }
        ids
    }

    /// The identifiers stored under keys that start with `prefix`: each
    /// once, those under shorter keys first, and no more than `limit` of
    /// them.
    pub fn find(&self, prefix: &str, limit: usize) -> (r: Vec<String>)
        ensures
            is_find_result(self@, prefix@, limit as int, strings_view(r@)),
            strings_view(r@) == self.find_spec(prefix@, limit as int),
    {
        match self.starts_with(prefix) {
            None => {
                let r: Vec<String> = Vec::new();
                assert(strings_view(r@) =~= Seq::<Seq<char>>::empty());
                r
            },
            Some(n) => {
                proof {
                    let m = choose|m: int|
                        0 <= m < self.nodes@.len() && (#[trigger] self.nodes@[m]).path@ == prefix@;
                    assert(self.nodes@[n as int].path@ == prefix@);
                    if m != n {
                        assert(self.nodes@[m].path@ != self.nodes@[n as int].path@);
                    }
                }
                self.get_all_ids_from(n, limit)
            },
        }
    }

    /// [`Trie::find`] for a prefix that the caller owns.
    pub fn find_string(&self, prefix: String, limit: usize) -> (r: Vec<String>)
        ensures
            is_find_result(self@, prefix@, limit as int, strings_view(r@)),
            strings_view(r@) == self.find_spec(prefix@, limit as int),
    {
        self.find(prefix.as_str(), limit)
    }
}

/// A key that starts with `prefix` and has no more code points than
/// `prefix` is `prefix`.
proof fn lemma_short_extension(prefix: Seq<char>, key: Seq<char>)
    requires
        prefix.is_prefix_of(key),
        key.len() <= prefix.len(),
    ensures
        key == prefix,
{
    assert(key =~= prefix);
}

/// A query never lists more than `limit` identifiers, and none twice.
pub proof fn law_find_is_bounded(pairs: Pairs, prefix: Seq<char>, limit: int, r: Seq<Seq<char>>)
    requires
        is_find_result(pairs, prefix, limit, r),
    ensures
        r.len() <= limit,
        forall|i: int, j: int| 0 <= i < j < r.len() ==> r[i] != r[j],
{
}

/// Once a pair is inserted, a query for any prefix of its key lists its
/// identifier, as long as the query stops short of its limit.
pub proof fn law_inserted_is_found(
    before: Pairs,
    key: Seq<char>,
    id: Seq<char>,
    prefix: Seq<char>,
    limit: int,
    r: Seq<Seq<char>>,
)
    requires
        prefix.is_prefix_of(key),
        is_find_result(before.insert((key, id)), prefix, limit, r),
        r.len() < limit,
    ensures
        r.contains(id),
{
    let pairs = before.insert((key, id));
    assert(pairs.contains((key, id)));
    assert(reachable(pairs, prefix, id));
}

/// A prefix that no stored key starts with finds nothing.
pub proof fn law_no_extension_finds_nothing(
    pairs: Pairs,
    prefix: Seq<char>,
    limit: int,
    r: Seq<Seq<char>>,
)
    requires
        is_find_result(pairs, prefix, limit, r),
        forall|key: Seq<char>, id: Seq<char>|
            #[trigger] pairs.contains((key, id)) ==> !prefix.is_prefix_of(key),
    ensures
        r.len() == 0,
{
    if r.len() > 0 {
        assert(reachable(pairs, prefix, r[0]));
    }
}

/// A limit of zero finds nothing.
pub proof fn law_zero_limit_finds_nothing(
    pairs: Pairs,
    prefix: Seq<char>,
    r: Seq<Seq<char>>,
)
    requires
        is_find_result(pairs, prefix, 0, r),
    ensures
        r.len() == 0,
{
}

/// Inserting a pair a second time changes nothing, and a query for the
/// pair's own key then lists its identifier once: never twice, and always
/// unless the result is filled to the limit with identifiers stored under
/// that very key.
pub proof fn law_reinsert_reports_once(
    before: Pairs,
    key: Seq<char>,
    id: Seq<char>,
    limit: int,
    r: Seq<Seq<char>>,
)
    requires
        is_find_result(before.insert((key, id)).insert((key, id)), key, limit, r),
    ensures
        before.insert((key, id)).insert((key, id)) == before.insert((key, id)),
        forall|i: int, j: int| 0 <= i < r.len() && 0 <= j < r.len() && r[i] == id && r[j] == id ==> i
            == j,
        r.contains(id) || (r.len() == limit && forall|i: int|
            0 <= i < r.len() ==> before.insert((key, id)).contains((key, #[trigger] r[i]))),
{
    let pairs = before.insert((key, id));
    assert(pairs.insert((key, id)) =~= pairs);
    assert(pairs.contains((key, id)));
    assert(key.is_prefix_of(key));
    assert(reachable(pairs, key, id));
    assert(reachable_within(pairs, key, id, key.len() as int));
    if !r.contains(id) {
        assert forall|i: int| 0 <= i < r.len() implies pairs.contains((key, #[trigger] r[i])) by {
            assert(reachable_within(pairs, key, r[i], key.len() as int));
            let k = choose|k: Seq<char>|
                key.is_prefix_of(k) && k.len() <= key.len() && #[trigger] pairs.contains((k, r[i]));
            lemma_short_extension(key, k);
        }
    }
}

} // verus!
