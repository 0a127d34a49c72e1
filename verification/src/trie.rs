//! The pattern trie: field paths merged into one tree of nodes, each node
//! listing the fields (by global field id) whose path ends there.

use vstd::prelude::*;
use crate::types::PathSegment;

verus! {

/// A path step as the trie's semantics sees it.
pub enum Step {
    Key(Seq<char>),
    Index(u16),
    Any,
}

pub open spec fn step_of(s: PathSegment) -> Step {
    match s {
        PathSegment::Key(k) => Step::Key(k@),
        PathSegment::Index(i) => Step::Index(i),
        PathSegment::AnyIndex => Step::Any,
    }
}

pub open spec fn steps_of(p: Seq<PathSegment>) -> Seq<Step> {
    p.map_values(|s: PathSegment| step_of(s))
}

/// One trie node.
#[derive(Debug)]
pub struct Node {
    pub key_children: Vec<(String, Node)>,
    /// Sorted by index once the machine is built. When a node also has a
    /// wildcard child, each fixed-index subtree contains a merged copy of
    /// the wildcard subtree, so every array element resolves to one node.
    pub index_children: Vec<(u16, Node)>,
    pub any_index_child: Option<Box<Node>>,
    /// Global ids of the fields whose path ends here.
    pub actions: Vec<u32>,
}

/// The first child at or after `i` with key `k`.
pub open spec fn key_pos(ch: Seq<(String, Node)>, k: Seq<char>, i: int) -> Option<int>
    decreases ch.len() - i,
{
    if i < 0 || i >= ch.len() {
        None
    } else if ch[i].0@ == k {
        Some(i)
    } else {
        key_pos(ch, k, i + 1)
    }
}

/// The first child at or after `i` with index `x`.
pub open spec fn index_pos(ch: Seq<(u16, Node)>, x: u16, i: int) -> Option<int>
    decreases ch.len() - i,
{
    if i < 0 || i >= ch.len() {
        None
    } else if ch[i].0 == x {
        Some(i)
    } else {
        index_pos(ch, x, i + 1)
    }
}

/// The node reached from `n` by following the pattern steps `p` exactly:
/// keys to key children, fixed indices to index children, `Any` to the
/// wildcard child.
pub open spec fn node_at(n: Node, p: Seq<Step>) -> Option<Node>
    decreases p.len(),
{
    if p.len() == 0 {
        Some(n)
    } else {
        match p[0] {
            Step::Key(k) => match key_pos(n.key_children@, k, 0) {
                Some(i) => node_at(n.key_children@[i].1, p.drop_first()),
                None => None,
            },
            Step::Index(x) => match index_pos(n.index_children@, x, 0) {
                Some(i) => node_at(n.index_children@[i].1, p.drop_first()),
                None => None,
            },
            Step::Any => match n.any_index_child {
                Some(b) => node_at(*b, p.drop_first()),
                None => None,
            },
        }
    }
}

/// The fields whose pattern path is exactly `p`.
pub open spec fn actions_at(n: Node, p: Seq<Step>) -> Seq<u32> {
    match node_at(n, p) {
        Some(m) => m.actions@,
        None => Seq::empty(),
    }
}

pub open spec fn is_empty_node(n: Node) -> bool {
    &&& n.key_children@.len() == 0
    &&& n.index_children@.len() == 0
    &&& n.any_index_child is None
    &&& n.actions@.len() == 0
}

pub proof fn lemma_empty_actions(n: Node, p: Seq<Step>)
    requires
        is_empty_node(n),
    ensures
        actions_at(n, p) == Seq::<u32>::empty(),
{
    if p.len() > 0 {
        match p[0] {
            Step::Key(k) => { assert(key_pos(n.key_children@, k, 0) is None); },
            Step::Index(x) => { assert(index_pos(n.index_children@, x, 0) is None); },
            Step::Any => {},
        }
    }
}

impl Node {
    pub fn new() -> (r: Node)
        ensures
            is_empty_node(r),
    {
        Node {
            key_children: Vec::new(),
            index_children: Vec::new(),
            any_index_child: None,
            actions: Vec::new(),
        }
    }
}

pub proof fn lemma_key_pos_same_keys(a: Seq<(String, Node)>, b: Seq<(String, Node)>, k: Seq<char>, i: int)
    requires
        a.len() == b.len(),
        forall|j: int| 0 <= j < a.len() ==> (#[trigger] a[j]).0@ == b[j].0@,
    ensures
        key_pos(a, k, i) == key_pos(b, k, i),
    decreases a.len() - i,
{
    if 0 <= i < a.len() {
        lemma_key_pos_same_keys(a, b, k, i + 1);
    }
}

pub proof fn lemma_key_pos_push(a: Seq<(String, Node)>, x: (String, Node), k: Seq<char>, i: int)
    requires
        0 <= i <= a.len(),
    ensures
        key_pos(a.push(x), k, i) == (match key_pos(a, k, i) {
            Some(j) => Some(j),
            None => if x.0@ == k { Some(a.len() as int) } else { None },
        }),
    decreases a.len() - i,
{
    if i < a.len() {
        assert(a.push(x)[i] == a[i]);
        lemma_key_pos_push(a, x, k, i + 1);
    } else {
        reveal_with_fuel(key_pos, 2);
    }
}

pub proof fn lemma_key_pos_found(a: Seq<(String, Node)>, k: Seq<char>, i: int)
    requires
        0 <= i,
    ensures
        key_pos(a, k, i) matches Some(j) ==> i <= j < a.len() && a[j].0@ == k,
        key_pos(a, k, i) is None ==> forall|j: int| i <= j < a.len() ==> (#[trigger] a[j]).0@ != k,
    decreases a.len() - i,
{
    if i < a.len() {
        lemma_key_pos_found(a, k, i + 1);
    }
}

pub proof fn lemma_index_pos_same_keys(a: Seq<(u16, Node)>, b: Seq<(u16, Node)>, x: u16, i: int)
    requires
        a.len() == b.len(),
        forall|j: int| 0 <= j < a.len() ==> (#[trigger] a[j]).0 == b[j].0,
    ensures
        index_pos(a, x, i) == index_pos(b, x, i),
    decreases a.len() - i,
{
    if 0 <= i < a.len() {
        lemma_index_pos_same_keys(a, b, x, i + 1);
    }
}

pub proof fn lemma_index_pos_push(a: Seq<(u16, Node)>, y: (u16, Node), x: u16, i: int)
    requires
        0 <= i <= a.len(),
    ensures
        index_pos(a.push(y), x, i) == (match index_pos(a, x, i) {
            Some(j) => Some(j),
            None => if y.0 == x { Some(a.len() as int) } else { None },
        }),
    decreases a.len() - i,
{
    if i < a.len() {
        assert(a.push(y)[i] == a[i]);
        lemma_index_pos_push(a, y, x, i + 1);
    } else {
        reveal_with_fuel(index_pos, 2);
    }
}

pub proof fn lemma_index_pos_found(a: Seq<(u16, Node)>, x: u16, i: int)
    requires
        0 <= i,
    ensures
        index_pos(a, x, i) matches Some(j) ==> i <= j < a.len() && a[j].0 == x,
        index_pos(a, x, i) is None ==> forall|j: int| i <= j < a.len() ==> (#[trigger] a[j]).0 != x,
    decreases a.len() - i,
{
    if i < a.len() {
        lemma_index_pos_found(a, x, i + 1);
    }
}

/// The position of the key child `key`, creating an empty one at the end
/// when there is none.
pub fn child_for_key(node: &mut Node, key: &String) -> (r: usize)
    ensures
        key_pos(final(node).key_children@, key@, 0) == Some(r as int),
        r < final(node).key_children@.len(),
        final(node).index_children == old(node).index_children,
        final(node).any_index_child == old(node).any_index_child,
        final(node).actions == old(node).actions,
        key_pos(old(node).key_children@, key@, 0) is Some ==> final(node).key_children == old(node).key_children,
        key_pos(old(node).key_children@, key@, 0) is None ==> {
            &&& r == old(node).key_children@.len()
            &&& final(node).key_children@.len() == old(node).key_children@.len() + 1
            &&& final(node).key_children@.take(old(node).key_children@.len() as int) == old(node).key_children@
            &&& is_empty_node(final(node).key_children@[r as int].1)
            &&& final(node).key_children@[r as int].0@ == key@
        },
{
    let n = node.key_children.len();
    let mut i: usize = 0;
    while i < n
        invariant
            n == node.key_children@.len(),
            i <= n,
            key_pos(node.key_children@, key@, 0) == key_pos(node.key_children@, key@, i as int),
        decreases n - i,
    {
        if node.key_children[i].0 == *key {
            return i;
        }
        i = i + 1;
    }
    let ghost old_children = node.key_children@;
    let entry = (key.clone(), Node::new());
    let ghost g_entry = entry;
    node.key_children.push(entry);
    proof {
        lemma_key_pos_push(old_children, g_entry, key@, 0);
        assert(node.key_children@.take(n as int) =~= old_children);
    }
    n
}

/// The position of the index child `index`, creating an empty one at the
/// end when there is none.
pub fn child_for_index(node: &mut Node, index: u16) -> (r: usize)
    ensures
        index_pos(final(node).index_children@, index, 0) == Some(r as int),
        r < final(node).index_children@.len(),
        final(node).key_children == old(node).key_children,
        final(node).any_index_child == old(node).any_index_child,
        final(node).actions == old(node).actions,
        index_pos(old(node).index_children@, index, 0) is Some ==> final(node).index_children == old(node).index_children,
        index_pos(old(node).index_children@, index, 0) is None ==> {
            &&& r == old(node).index_children@.len()
            &&& final(node).index_children@.len() == old(node).index_children@.len() + 1
            &&& final(node).index_children@.take(old(node).index_children@.len() as int) == old(node).index_children@
            &&& is_empty_node(final(node).index_children@[r as int].1)
            &&& final(node).index_children@[r as int].0 == index
        },
{
    let n = node.index_children.len();
    let mut i: usize = 0;
    while i < n
        invariant
            n == node.index_children@.len(),
            i <= n,
            index_pos(node.index_children@, index, 0) == index_pos(node.index_children@, index, i as int),
        decreases n - i,
    {
        if node.index_children[i].0 == index {
            return i;
        }
        i = i + 1;
    }
    let ghost old_children = node.index_children@;
    let entry = (index, Node::new());
    let ghost g_entry = entry;
    node.index_children.push(entry);
    proof {
        lemma_index_pos_push(old_children, g_entry, index, 0);
        assert(node.index_children@.take(n as int) =~= old_children);
    }
    n
}

pub open spec fn distinct_children(n: Node) -> bool {
    &&& forall|i: int, j: int| 0 <= i < j < n.key_children@.len()
        ==> (#[trigger] n.key_children@[i]).0@ != (#[trigger] n.key_children@[j]).0@
    &&& forall|i: int, j: int| 0 <= i < j < n.index_children@.len()
        ==> (#[trigger] n.index_children@[i]).0 != (#[trigger] n.index_children@[j]).0
}

/// Children are found by their key or index: no two key children share a
/// key and no two index children share an index, at every node.
pub open spec fn wf_node(n: Node) -> bool {
    forall|p: Seq<Step>| #[trigger] node_at(n, p) is Some ==> distinct_children(node_at(n, p).unwrap())
}

pub proof fn lemma_node_at_cons(n: Node, s: Step, p: Seq<Step>)
    ensures
        node_at(n, seq![s] + p) == (match s {
            Step::Key(k) => match key_pos(n.key_children@, k, 0) {
                Some(i) => node_at(n.key_children@[i].1, p),
                None => None,
            },
            Step::Index(x) => match index_pos(n.index_children@, x, 0) {
                Some(i) => node_at(n.index_children@[i].1, p),
                None => None,
            },
            Step::Any => match n.any_index_child {
                Some(b) => node_at(*b, p),
                None => None,
            },
        }),
{
    assert((seq![s] + p)[0] == s);
    assert((seq![s] + p).drop_first() =~= p);
}

pub proof fn lemma_wf_unfold(n: Node)
    requires
        wf_node(n),
    ensures
        distinct_children(n),
        forall|i: int| 0 <= i < n.key_children@.len() ==> #[trigger] wf_node(n.key_children@[i].1),
        forall|i: int| 0 <= i < n.index_children@.len() ==> #[trigger] wf_node(n.index_children@[i].1),
        n.any_index_child matches Some(b) ==> wf_node(*b),
{
    assert(node_at(n, Seq::empty()) == Some(n));
    assert forall|i: int| 0 <= i < n.key_children@.len() implies #[trigger] wf_node(n.key_children@[i].1) by {
        lemma_key_pos_distinct(n.key_children@, i);
        assert forall|p: Seq<Step>| #[trigger] node_at(n.key_children@[i].1, p) is Some implies distinct_children(node_at(n.key_children@[i].1, p).unwrap()) by {
            lemma_node_at_cons(n, Step::Key(n.key_children@[i].0@), p);
            assert(node_at(n, seq![Step::Key(n.key_children@[i].0@)] + p) == node_at(n.key_children@[i].1, p));
        }
    }
    assert forall|i: int| 0 <= i < n.index_children@.len() implies #[trigger] wf_node(n.index_children@[i].1) by {
        lemma_index_pos_distinct(n.index_children@, i);
        assert forall|p: Seq<Step>| #[trigger] node_at(n.index_children@[i].1, p) is Some implies distinct_children(node_at(n.index_children@[i].1, p).unwrap()) by {
            lemma_node_at_cons(n, Step::Index(n.index_children@[i].0), p);
            assert(node_at(n, seq![Step::Index(n.index_children@[i].0)] + p) == node_at(n.index_children@[i].1, p));
        }
    }
    if let Some(b) = n.any_index_child {
        assert forall|p: Seq<Step>| #[trigger] node_at(*b, p) is Some implies distinct_children(node_at(*b, p).unwrap()) by {
            lemma_node_at_cons(n, Step::Any, p);
            assert(node_at(n, seq![Step::Any] + p) == node_at(*b, p));
        }
    }
}

pub proof fn lemma_wf_fold(n: Node)
    requires
        distinct_children(n),
        forall|i: int| 0 <= i < n.key_children@.len() ==> #[trigger] wf_node(n.key_children@[i].1),
        forall|i: int| 0 <= i < n.index_children@.len() ==> #[trigger] wf_node(n.index_children@[i].1),
        n.any_index_child matches Some(b) ==> wf_node(*b),
    ensures
        wf_node(n),
{
    assert forall|p: Seq<Step>| #[trigger] node_at(n, p) is Some implies distinct_children(node_at(n, p).unwrap()) by {
        if p.len() > 0 {
            let q = p.drop_first();
            match p[0] {
                Step::Key(k) => {
                    lemma_key_pos_found(n.key_children@, k, 0);
                    if let Some(i) = key_pos(n.key_children@, k, 0) {
                        assert(wf_node(n.key_children@[i].1));
                        assert(node_at(n.key_children@[i].1, q) is Some);
                    }
                },
                Step::Index(x) => {
                    lemma_index_pos_found(n.index_children@, x, 0);
                    if let Some(i) = index_pos(n.index_children@, x, 0) {
                        assert(wf_node(n.index_children@[i].1));
                        assert(node_at(n.index_children@[i].1, q) is Some);
                    }
                },
                Step::Any => {
                    if let Some(b) = n.any_index_child {
                        assert(node_at(*b, q) is Some);
                    }
                },
            }
        }
    }
}

pub proof fn lemma_empty_wf(n: Node)
    requires
        is_empty_node(n),
    ensures
        wf_node(n),
{
    assert forall|p: Seq<Step>| #[trigger] node_at(n, p) is Some implies distinct_children(node_at(n, p).unwrap()) by {
        if p.len() > 0 {
            match p[0] {
                Step::Key(k) => { assert(key_pos(n.key_children@, k, 0) is None); },
                Step::Index(x) => { assert(index_pos(n.index_children@, x, 0) is None); },
                Step::Any => {},
            }
        }
    }
}

pub proof fn lemma_key_pos_distinct(a: Seq<(String, Node)>, i: int)
    requires
        0 <= i < a.len(),
        forall|x: int, y: int| 0 <= x < y < a.len() ==> (#[trigger] a[x]).0@ != (#[trigger] a[y]).0@,
    ensures
        key_pos(a, a[i].0@, 0) == Some(i),
{
    lemma_key_pos_found(a, a[i].0@, 0);
    let j = key_pos(a, a[i].0@, 0).unwrap();
    assert(j == i) by {
        if j < i {
            assert(a[j].0@ != a[i].0@);
        }
        lemma_key_pos_first(a, a[i].0@, 0, i);
    }
}

pub proof fn lemma_key_pos_first(a: Seq<(String, Node)>, k: Seq<char>, i: int, t: int)
    requires
        0 <= i <= t < a.len(),
        a[t].0@ == k,
    ensures
        key_pos(a, k, i) matches Some(j) && j <= t,
    decreases t - i,
{
    if a[i].0@ != k {
        lemma_key_pos_first(a, k, i + 1, t);
    }
}

pub proof fn lemma_index_pos_first(a: Seq<(u16, Node)>, x: u16, i: int, t: int)
    requires
        0 <= i <= t < a.len(),
        a[t].0 == x,
    ensures
        index_pos(a, x, i) matches Some(j) && j <= t,
    decreases t - i,
{
    if a[i].0 != x {
        lemma_index_pos_first(a, x, i + 1, t);
    }
}

pub proof fn lemma_index_pos_distinct(a: Seq<(u16, Node)>, i: int)
    requires
        0 <= i < a.len(),
        forall|x: int, y: int| 0 <= x < y < a.len() ==> (#[trigger] a[x]).0 != (#[trigger] a[y]).0,
    ensures
        index_pos(a, a[i].0, 0) == Some(i),
{
    lemma_index_pos_found(a, a[i].0, 0);
    lemma_index_pos_first(a, a[i].0, 0, i);
}

pub proof fn lemma_steps_skip(s: Seq<PathSegment>, k: int)
    requires
        0 <= k <= s.len(),
    ensures
        steps_of(s.skip(k)).len() == s.len() - k,
        k < s.len() ==> steps_of(s.skip(k))[0] == step_of(s[k]),
        k < s.len() ==> steps_of(s.skip(k)).drop_first() == steps_of(s.skip(k + 1)),
{
    if k < s.len() {
        assert(steps_of(s.skip(k)).drop_first() =~= steps_of(s.skip(k + 1)));
    }
}

pub proof fn lemma_step_cons(p: Seq<Step>, target: Seq<Step>, rest: Seq<Step>)
    requires
        p.len() > 0,
        target.len() > 0,
        target.drop_first() == rest,
        p[0] == target[0],
    ensures
        p == target <==> p.drop_first() == rest,
{
    if p.drop_first() == rest {
        assert(p.drop_first().len() == p.len() - 1);
        assert(target.drop_first().len() == target.len() - 1);
        assert forall|j: int| 0 <= j < p.len() implies p[j] == target[j] by {
            if j > 0 {
                assert(p[j] == p.drop_first()[j - 1]);
                assert(target[j] == target.drop_first()[j - 1]);
            }
        }
        assert(p.len() == target.len());
        assert(p =~= target);
    }
}

/// Replacing the key child found (or just created) by `child_for_key`:
/// paths through that key now lead into the new child, all other paths are
/// untouched.
pub proof fn lemma_key_child_update(old_n: Node, mid: Node, new_n: Node, idx: int, key: Seq<char>)
    requires
        key_pos(mid.key_children@, key, 0) == Some(idx),
        0 <= idx < mid.key_children@.len(),
        mid.index_children == old_n.index_children,
        mid.any_index_child == old_n.any_index_child,
        mid.actions == old_n.actions,
        key_pos(old_n.key_children@, key, 0) is Some ==> mid.key_children == old_n.key_children,
        key_pos(old_n.key_children@, key, 0) is None ==> {
            &&& idx == old_n.key_children@.len()
            &&& mid.key_children@.len() == old_n.key_children@.len() + 1
            &&& mid.key_children@.take(old_n.key_children@.len() as int) == old_n.key_children@
            &&& is_empty_node(mid.key_children@[idx].1)
            &&& mid.key_children@[idx].0@ == key
        },
        new_n.key_children@.len() == mid.key_children@.len(),
        forall|j: int| 0 <= j < mid.key_children@.len() && j != idx ==> #[trigger] new_n.key_children@[j] == mid.key_children@[j],
        new_n.key_children@[idx].0 == mid.key_children@[idx].0,
        new_n.index_children == mid.index_children,
        new_n.any_index_child == mid.any_index_child,
    ensures
        forall|p: Seq<Step>| #[trigger] node_at(new_n, p) == (if p.len() > 0 && p[0] == Step::Key(key) {
            node_at(new_n.key_children@[idx].1, p.drop_first())
        } else if p.len() == 0 {
            Some(new_n)
        } else {
            node_at(old_n, p)
        }),
        forall|q: Seq<Step>| #[trigger] actions_at(mid.key_children@[idx].1, q) == actions_at(old_n, seq![Step::Key(key)] + q),
{
    lemma_key_pos_same_keys(new_n.key_children@, mid.key_children@, key, 0);
    if key_pos(old_n.key_children@, key, 0) is None {
        assert(mid.key_children@ =~= old_n.key_children@.push(mid.key_children@[idx]));
    }
    assert forall|p: Seq<Step>| #[trigger] node_at(new_n, p) == (if p.len() > 0 && p[0] == Step::Key(key) {
        node_at(new_n.key_children@[idx].1, p.drop_first())
    } else if p.len() == 0 {
        Some(new_n)
    } else {
        node_at(old_n, p)
    }) by {
        if p.len() > 0 {
            if let Step::Key(k2) = p[0] {
                if k2 != key {
                    lemma_key_pos_same_keys(new_n.key_children@, mid.key_children@, k2, 0);
                    lemma_key_pos_found(old_n.key_children@, k2, 0);
                    lemma_key_pos_found(mid.key_children@, key, 0);
                    if key_pos(old_n.key_children@, key, 0) is None {
                        lemma_key_pos_push(old_n.key_children@, mid.key_children@[idx], k2, 0);
                    }
                    if let Some(j) = key_pos(old_n.key_children@, k2, 0) {
                        assert(j != idx);
                        assert(new_n.key_children@[j] == old_n.key_children@[j]);
                    }
                }
            }
        }
    }
    assert forall|q: Seq<Step>| #[trigger] actions_at(mid.key_children@[idx].1, q) == actions_at(old_n, seq![Step::Key(key)] + q) by {
        lemma_node_at_cons(old_n, Step::Key(key), q);
        if key_pos(old_n.key_children@, key, 0) is None {
            lemma_empty_actions(mid.key_children@[idx].1, q);
        }
    }
}

/// The index-child counterpart of [`lemma_key_child_update`].
pub proof fn lemma_index_child_update(old_n: Node, mid: Node, new_n: Node, idx: int, x: u16)
    requires
        index_pos(mid.index_children@, x, 0) == Some(idx),
        0 <= idx < mid.index_children@.len(),
        mid.key_children == old_n.key_children,
        mid.any_index_child == old_n.any_index_child,
        mid.actions == old_n.actions,
        index_pos(old_n.index_children@, x, 0) is Some ==> mid.index_children == old_n.index_children,
        index_pos(old_n.index_children@, x, 0) is None ==> {
            &&& idx == old_n.index_children@.len()
            &&& mid.index_children@.len() == old_n.index_children@.len() + 1
            &&& mid.index_children@.take(old_n.index_children@.len() as int) == old_n.index_children@
            &&& is_empty_node(mid.index_children@[idx].1)
            &&& mid.index_children@[idx].0 == x
        },
        new_n.index_children@.len() == mid.index_children@.len(),
        forall|j: int| 0 <= j < mid.index_children@.len() && j != idx ==> #[trigger] new_n.index_children@[j] == mid.index_children@[j],
        new_n.index_children@[idx].0 == mid.index_children@[idx].0,
        new_n.key_children == mid.key_children,
        new_n.any_index_child == mid.any_index_child,
    ensures
        forall|p: Seq<Step>| #[trigger] node_at(new_n, p) == (if p.len() > 0 && p[0] == Step::Index(x) {
            node_at(new_n.index_children@[idx].1, p.drop_first())
        } else if p.len() == 0 {
            Some(new_n)
        } else {
            node_at(old_n, p)
        }),
        forall|q: Seq<Step>| #[trigger] actions_at(mid.index_children@[idx].1, q) == actions_at(old_n, seq![Step::Index(x)] + q),
{
    lemma_index_pos_same_keys(new_n.index_children@, mid.index_children@, x, 0);
    if index_pos(old_n.index_children@, x, 0) is None {
        assert(mid.index_children@ =~= old_n.index_children@.push(mid.index_children@[idx]));
    }
    assert forall|p: Seq<Step>| #[trigger] node_at(new_n, p) == (if p.len() > 0 && p[0] == Step::Index(x) {
        node_at(new_n.index_children@[idx].1, p.drop_first())
    } else if p.len() == 0 {
        Some(new_n)
    } else {
        node_at(old_n, p)
    }) by {
        if p.len() > 0 {
            if let Step::Index(y) = p[0] {
                if y != x {
                    lemma_index_pos_same_keys(new_n.index_children@, mid.index_children@, y, 0);
                    lemma_index_pos_found(old_n.index_children@, y, 0);
                    lemma_index_pos_found(mid.index_children@, x, 0);
                    if index_pos(old_n.index_children@, x, 0) is None {
                        lemma_index_pos_push(old_n.index_children@, mid.index_children@[idx], y, 0);
                    }
                    if let Some(j) = index_pos(old_n.index_children@, y, 0) {
                        assert(j != idx);
                        assert(new_n.index_children@[j] == old_n.index_children@[j]);
                    }
                }
            }
        }
    }
    assert forall|q: Seq<Step>| #[trigger] actions_at(mid.index_children@[idx].1, q) == actions_at(old_n, seq![Step::Index(x)] + q) by {
        lemma_node_at_cons(old_n, Step::Index(x), q);
        if index_pos(old_n.index_children@, x, 0) is None {
            lemma_empty_actions(mid.index_children@[idx].1, q);
        }
    }
}

pub proof fn lemma_key_child_update_wf(old_n: Node, mid: Node, new_n: Node, idx: int, key: Seq<char>)
    requires
        wf_node(old_n),
        key_pos(mid.key_children@, key, 0) == Some(idx),
        0 <= idx < mid.key_children@.len(),
        mid.index_children == old_n.index_children,
        mid.any_index_child == old_n.any_index_child,
        key_pos(old_n.key_children@, key, 0) is Some ==> mid.key_children == old_n.key_children,
        key_pos(old_n.key_children@, key, 0) is None ==> {
            &&& idx == old_n.key_children@.len()
            &&& mid.key_children@.len() == old_n.key_children@.len() + 1
            &&& mid.key_children@.take(old_n.key_children@.len() as int) == old_n.key_children@
            &&& mid.key_children@[idx].0@ == key
        },
        new_n.key_children@.len() == mid.key_children@.len(),
        forall|j: int| 0 <= j < mid.key_children@.len() && j != idx ==> #[trigger] new_n.key_children@[j] == mid.key_children@[j],
        new_n.key_children@[idx].0 == mid.key_children@[idx].0,
        new_n.index_children == mid.index_children,
        new_n.any_index_child == mid.any_index_child,
        wf_node(new_n.key_children@[idx].1),
    ensures
        wf_node(new_n),
{
    lemma_wf_unfold(old_n);
    lemma_key_pos_found(old_n.key_children@, key, 0);
    if key_pos(old_n.key_children@, key, 0) is None {
        assert forall|j: int| 0 <= j < old_n.key_children@.len() implies mid.key_children@[j] == old_n.key_children@[j] by {
            assert(mid.key_children@.take(old_n.key_children@.len() as int)[j] == mid.key_children@[j]);
        }
    }
    assert forall|i: int| 0 <= i < new_n.key_children@.len() implies #[trigger] wf_node(new_n.key_children@[i].1) by {
        if i != idx {
            assert(new_n.key_children@[i] == old_n.key_children@[i]);
        }
    }
    assert forall|i: int, j: int| 0 <= i < j < new_n.key_children@.len()
        implies (#[trigger] new_n.key_children@[i]).0@ != (#[trigger] new_n.key_children@[j]).0@ by {
        if i != idx && j != idx {
            assert(new_n.key_children@[i] == old_n.key_children@[i]);
            assert(new_n.key_children@[j] == old_n.key_children@[j]);
        } else if j == idx {
            if key_pos(old_n.key_children@, key, 0) is None {
                assert(new_n.key_children@[i] == old_n.key_children@[i]);
            } else {
                lemma_key_pos_distinct(old_n.key_children@, idx);
                assert(new_n.key_children@[i] == old_n.key_children@[i]);
            }
        } else {
            assert(new_n.key_children@[j] == old_n.key_children@[j]);
        }
    }
    lemma_wf_fold(new_n);
}

pub proof fn lemma_index_child_update_wf(old_n: Node, mid: Node, new_n: Node, idx: int, x: u16)
    requires
        wf_node(old_n),
        index_pos(mid.index_children@, x, 0) == Some(idx),
        0 <= idx < mid.index_children@.len(),
        mid.key_children == old_n.key_children,
        mid.any_index_child == old_n.any_index_child,
        index_pos(old_n.index_children@, x, 0) is Some ==> mid.index_children == old_n.index_children,
        index_pos(old_n.index_children@, x, 0) is None ==> {
            &&& idx == old_n.index_children@.len()
            &&& mid.index_children@.len() == old_n.index_children@.len() + 1
            &&& mid.index_children@.take(old_n.index_children@.len() as int) == old_n.index_children@
            &&& mid.index_children@[idx].0 == x
        },
        new_n.index_children@.len() == mid.index_children@.len(),
        forall|j: int| 0 <= j < mid.index_children@.len() && j != idx ==> #[trigger] new_n.index_children@[j] == mid.index_children@[j],
        new_n.index_children@[idx].0 == mid.index_children@[idx].0,
        new_n.key_children == mid.key_children,
        new_n.any_index_child == mid.any_index_child,
        wf_node(new_n.index_children@[idx].1),
    ensures
        wf_node(new_n),
{
    lemma_wf_unfold(old_n);
    lemma_index_pos_found(old_n.index_children@, x, 0);
    if index_pos(old_n.index_children@, x, 0) is None {
        assert forall|j: int| 0 <= j < old_n.index_children@.len() implies mid.index_children@[j] == old_n.index_children@[j] by {
            assert(mid.index_children@.take(old_n.index_children@.len() as int)[j] == mid.index_children@[j]);
        }
    }
    assert forall|i: int| 0 <= i < new_n.index_children@.len() implies #[trigger] wf_node(new_n.index_children@[i].1) by {
        if i != idx {
            assert(new_n.index_children@[i] == old_n.index_children@[i]);
        }
    }
    assert forall|i: int, j: int| 0 <= i < j < new_n.index_children@.len()
        implies (#[trigger] new_n.index_children@[i]).0 != (#[trigger] new_n.index_children@[j]).0 by {
        if i != idx && j != idx {
            assert(new_n.index_children@[i] == old_n.index_children@[i]);
            assert(new_n.index_children@[j] == old_n.index_children@[j]);
        } else if j == idx {
            if index_pos(old_n.index_children@, x, 0) is None {
                assert(new_n.index_children@[i] == old_n.index_children@[i]);
            } else {
                lemma_index_pos_distinct(old_n.index_children@, idx);
                assert(new_n.index_children@[i] == old_n.index_children@[i]);
            }
        } else {
            assert(new_n.index_children@[j] == old_n.index_children@[j]);
        }
    }
    lemma_wf_fold(new_n);
}

/// Adds field `bit` at the end of the pattern path `path[k..]` below `node`.
pub fn insert_path(node: &mut Node, path: &[PathSegment], k: usize, bit: u32)
    requires
        k <= path@.len(),
        wf_node(*old(node)),
    ensures
        wf_node(*final(node)),
        forall|h: nat| height_le(*old(node), h) && h > path@.len() - k ==> #[trigger] height_le(*final(node), h),
        forall|p: Seq<Step>| #[trigger] actions_at(*final(node), p) == (if p == steps_of(path@.skip(k as int)) {
            actions_at(*old(node), p).push(bit)
        } else {
            actions_at(*old(node), p)
        }),
    decreases path@.len() - k,
{
    proof { lemma_steps_skip(path@, k as int); }
    if k == path.len() {
        node.actions.push(bit);
        proof {
            lemma_wf_unfold(*old(node));
            lemma_wf_fold(*node);
            assert forall|h: nat| height_le(*old(node), h) && h > path@.len() - k implies #[trigger] height_le(*node, h) by {
                lemma_height_unfold(*old(node), h);
                lemma_height_fold(*node, h);
            }
        }
        assert forall|p: Seq<Step>| #[trigger] actions_at(*node, p) == (if p == steps_of(path@.skip(k as int)) {
            actions_at(*old(node), p).push(bit)
        } else {
            actions_at(*old(node), p)
        }) by {
            if p.len() == 0 {
                assert(p =~= steps_of(path@.skip(k as int)));
            }
        }
        return;
    }
    let ghost target = steps_of(path@.skip(k as int));
    let ghost rest = steps_of(path@.skip(k + 1));
    match &path[k] {
        PathSegment::Key(key) => {
            let idx = child_for_key(node, key);
            let ghost mid = *node;
            proof {
                if key_pos(old(node).key_children@, key@, 0) is None {
                    lemma_empty_wf(node.key_children@[idx as int].1);
                } else {
                    lemma_wf_unfold(*old(node));
                }
            }
            insert_path(&mut node.key_children[idx].1, path, k + 1, bit);
            proof {
                lemma_wf_unfold(*old(node));
                lemma_key_pos_found(old(node).key_children@, key@, 0);
                assert forall|i: int| 0 <= i < node.key_children@.len() implies #[trigger] wf_node(node.key_children@[i].1) by {
                    if i != idx {
                        assert(node.key_children@[i] == old(node).key_children@[i]);
                    }
                }
                assert(distinct_children(*node)) by {
                    assert forall|i: int, j: int| 0 <= i < j < node.key_children@.len()
                        implies (#[trigger] node.key_children@[i]).0@ != (#[trigger] node.key_children@[j]).0@ by {
                        if j == idx && key_pos(old(node).key_children@, key@, 0) is None {
                            assert(node.key_children@[i] == old(node).key_children@[i]);
                        } else if j != idx && i != idx {
                            assert(node.key_children@[i] == old(node).key_children@[i]);
                            assert(node.key_children@[j] == old(node).key_children@[j]);
                        } else {
                            assert(node.key_children@[i].0 == mid.key_children@[i].0);
                            assert(node.key_children@[j].0 == mid.key_children@[j].0);
                        }
                    }
                }
                lemma_wf_fold(*node);
                assert forall|h: nat| height_le(*old(node), h) && h > path@.len() - k implies #[trigger] height_le(*node, h) by {
                    lemma_height_unfold(*old(node), h);
                    if key_pos(old(node).key_children@, key@, 0) is None {
                        lemma_empty_height(mid.key_children@[idx as int].1);
                        lemma_height_mono(mid.key_children@[idx as int].1, 1, (h - 1) as nat);
                    }
                    assert(height_le(mid.key_children@[idx as int].1, (h - 1) as nat));
                    assert(height_le(node.key_children@[idx as int].1, (h - 1) as nat));
                    assert forall|i: int| 0 <= i < node.key_children@.len() implies #[trigger] height_le(node.key_children@[i].1, (h - 1) as nat) by {
                        if i != idx {
                            assert(node.key_children@[i] == old(node).key_children@[i]);
                        }
                    }
                    lemma_height_fold(*node, h);
                }
                assert(target[0] == Step::Key(key@));
                lemma_key_pos_same_keys(node.key_children@, mid.key_children@, key@, 0);
                assert forall|p: Seq<Step>| #[trigger] actions_at(*node, p) == (if p == target {
                    actions_at(*old(node), p).push(bit)
                } else {
                    actions_at(*old(node), p)
                }) by {
                    if p.len() > 0 {
                        let q = p.drop_first();
                        if let Step::Key(k2) = p[0] {
                            lemma_key_pos_same_keys(node.key_children@, mid.key_children@, k2, 0);
                            lemma_key_pos_push(old(node).key_children@, mid.key_children@.last(), k2, 0);
                            lemma_key_pos_found(old(node).key_children@, k2, 0);
                            if k2 == key@ {
                                if key_pos(old(node).key_children@, key@, 0) is None {
                                    lemma_empty_actions(mid.key_children@[idx as int].1, q);
                                }
                                assert(actions_at(node.key_children@[idx as int].1, q) == (if q == rest {
                                    actions_at(mid.key_children@[idx as int].1, q).push(bit)
                                } else {
                                    actions_at(mid.key_children@[idx as int].1, q)
                                }));
                                assert(target[0] == Step::Key(key@));
                                lemma_step_cons(p, target, rest);
                                assert(actions_at(*node, p) == (if p == target { actions_at(*old(node), p).push(bit) } else { actions_at(*old(node), p) }));
                            } else {
                                assert(p != target);
                                if key_pos(old(node).key_children@, key@, 0) is None {
                                    assert(mid.key_children@ =~= old(node).key_children@.push(mid.key_children@.last()));
                                }
                                assert(key_pos(mid.key_children@, k2, 0) == key_pos(old(node).key_children@, k2, 0));
                                assert(key_pos(node.key_children@, k2, 0) == key_pos(old(node).key_children@, k2, 0));
                                if let Some(j) = key_pos(old(node).key_children@, k2, 0) {
                                    lemma_key_pos_found(mid.key_children@, key@, 0);
                                    assert(j != idx);
                                    assert(node.key_children@[j] == old(node).key_children@[j]);
                                }
                                assert(actions_at(*node, p) == (if p == target { actions_at(*old(node), p).push(bit) } else { actions_at(*old(node), p) }));
                            }
                        } else {
                            assert(p != target);
                        }
                    } else {
                        assert(p != target);
                    }
                }
            }
        }
        PathSegment::Index(index) => {
            let idx = child_for_index(node, *index);
            let ghost mid = *node;
            proof {
                if index_pos(old(node).index_children@, *index, 0) is None {
                    lemma_empty_wf(node.index_children@[idx as int].1);
                } else {
                    lemma_wf_unfold(*old(node));
                }
            }
            insert_path(&mut node.index_children[idx].1, path, k + 1, bit);
            proof {
                lemma_wf_unfold(*old(node));
                lemma_index_pos_found(old(node).index_children@, *index, 0);
                assert forall|i: int| 0 <= i < node.index_children@.len() implies #[trigger] wf_node(node.index_children@[i].1) by {
                    if i != idx {
                        assert(node.index_children@[i] == old(node).index_children@[i]);
                    }
                }
                assert(distinct_children(*node)) by {
                    assert forall|i: int, j: int| 0 <= i < j < node.index_children@.len()
                        implies (#[trigger] node.index_children@[i]).0 != (#[trigger] node.index_children@[j]).0 by {
                        if j == idx && index_pos(old(node).index_children@, *index, 0) is None {
                            assert(node.index_children@[i] == old(node).index_children@[i]);
                        } else if j != idx && i != idx {
                            assert(node.index_children@[i] == old(node).index_children@[i]);
                            assert(node.index_children@[j] == old(node).index_children@[j]);
                        } else {
                            assert(node.index_children@[i].0 == mid.index_children@[i].0);
                            assert(node.index_children@[j].0 == mid.index_children@[j].0);
                        }
                    }
                }
                lemma_wf_fold(*node);
                assert forall|h: nat| height_le(*old(node), h) && h > path@.len() - k implies #[trigger] height_le(*node, h) by {
                    lemma_height_unfold(*old(node), h);
                    if index_pos(old(node).index_children@, *index, 0) is None {
                        lemma_empty_height(mid.index_children@[idx as int].1);
                        lemma_height_mono(mid.index_children@[idx as int].1, 1, (h - 1) as nat);
                    }
                    assert(height_le(mid.index_children@[idx as int].1, (h - 1) as nat));
                    assert(height_le(node.index_children@[idx as int].1, (h - 1) as nat));
                    assert forall|i: int| 0 <= i < node.index_children@.len() implies #[trigger] height_le(node.index_children@[i].1, (h - 1) as nat) by {
                        if i != idx {
                            assert(node.index_children@[i] == old(node).index_children@[i]);
                        }
                    }
                    lemma_height_fold(*node, h);
                }
                assert(target[0] == Step::Index(*index));
                assert forall|p: Seq<Step>| #[trigger] actions_at(*node, p) == (if p == target {
                    actions_at(*old(node), p).push(bit)
                } else {
                    actions_at(*old(node), p)
                }) by {
                    if p.len() > 0 {
                        let q = p.drop_first();
                        if let Step::Index(x) = p[0] {
                            lemma_index_pos_same_keys(node.index_children@, mid.index_children@, x, 0);
                            lemma_index_pos_push(old(node).index_children@, mid.index_children@.last(), x, 0);
                            lemma_index_pos_found(old(node).index_children@, x, 0);
                            if x == *index {
                                if index_pos(old(node).index_children@, x, 0) is None {
                                    lemma_empty_actions(mid.index_children@[idx as int].1, q);
                                }
                                assert(actions_at(node.index_children@[idx as int].1, q) == (if q == rest {
                                    actions_at(mid.index_children@[idx as int].1, q).push(bit)
                                } else {
                                    actions_at(mid.index_children@[idx as int].1, q)
                                }));
                                assert(target[0] == Step::Index(*index));
                                lemma_step_cons(p, target, rest);
                            } else {
                                assert(p != target);
                                if index_pos(old(node).index_children@, *index, 0) is None {
                                    assert(mid.index_children@ =~= old(node).index_children@.push(mid.index_children@.last()));
                                }
                                if let Some(j) = index_pos(old(node).index_children@, x, 0) {
                                    lemma_index_pos_found(mid.index_children@, *index, 0);
                                    assert(j != idx);
                                    assert(node.index_children@[j] == old(node).index_children@[j]);
                                }
                            }
                        } else {
                            assert(p != target);
                        }
                    } else {
                        assert(p != target);
                    }
                }
            }
        }
        PathSegment::AnyIndex => {
            let mut child = match node.any_index_child.take() {
                Some(b) => *b,
                None => Node::new(),
            };
            let ghost child0 = child;
            proof {
                lemma_wf_unfold(*old(node));
                if old(node).any_index_child is None {
                    lemma_empty_wf(child0);
                }
            }
            insert_path(&mut child, path, k + 1, bit);
            let ghost child_fin = child;
            node.any_index_child = Some(Box::new(child));
            proof {
                lemma_wf_fold(*node);
                assert forall|h: nat| height_le(*old(node), h) && h > path@.len() - k implies #[trigger] height_le(*node, h) by {
                    lemma_height_unfold(*old(node), h);
                    if old(node).any_index_child is None {
                        lemma_empty_height(child0);
                        lemma_height_mono(child0, 1, (h - 1) as nat);
                    }
                    assert(height_le(child0, (h - 1) as nat));
                    assert(height_le(child_fin, (h - 1) as nat));
                    lemma_height_fold(*node, h);
                }
                assert(target[0] == Step::Any);
                assert forall|p: Seq<Step>| #[trigger] actions_at(*node, p) == (if p == target {
                    actions_at(*old(node), p).push(bit)
                } else {
                    actions_at(*old(node), p)
                }) by {
                    if p.len() > 0 {
                        let q = p.drop_first();
                        if let Step::Any = p[0] {
                            if old(node).any_index_child is None {
                                lemma_empty_actions(child0, q);
                            }
                            assert(actions_at(child_fin, q) == (if q == rest {
                                actions_at(child0, q).push(bit)
                            } else {
                                actions_at(child0, q)
                            }));
                            assert(target[0] == Step::Any);
                            lemma_step_cons(p, target, rest);
                        } else {
                            assert(p != target);
                        }
                    } else {
                        assert(p != target);
                    }
                }
            }
        }
    }
}

/// Every node below `n` is reached by a path shorter than `h`.
pub open spec fn height_le(n: Node, h: nat) -> bool {
    forall|p: Seq<Step>| #[trigger] node_at(n, p) is Some ==> p.len() < h
}

pub proof fn lemma_height_unfold(n: Node, h: nat)
    requires
        height_le(n, h),
        distinct_children(n),
    ensures
        h >= 1,
        forall|i: int| 0 <= i < n.key_children@.len() ==> #[trigger] height_le(n.key_children@[i].1, (h - 1) as nat),
        forall|i: int| 0 <= i < n.index_children@.len() ==> #[trigger] height_le(n.index_children@[i].1, (h - 1) as nat),
        n.any_index_child matches Some(b) ==> height_le(*b, (h - 1) as nat),
{
    assert(node_at(n, Seq::empty()) is Some);
    assert forall|i: int| 0 <= i < n.key_children@.len() implies #[trigger] height_le(n.key_children@[i].1, (h - 1) as nat) by {
        lemma_key_pos_distinct(n.key_children@, i);
        assert forall|q: Seq<Step>| #[trigger] node_at(n.key_children@[i].1, q) is Some implies q.len() < h - 1 by {
            lemma_node_at_cons(n, Step::Key(n.key_children@[i].0@), q);
            assert(node_at(n, seq![Step::Key(n.key_children@[i].0@)] + q) is Some);
        }
    }
    assert forall|i: int| 0 <= i < n.index_children@.len() implies #[trigger] height_le(n.index_children@[i].1, (h - 1) as nat) by {
        lemma_index_pos_distinct(n.index_children@, i);
        assert forall|q: Seq<Step>| #[trigger] node_at(n.index_children@[i].1, q) is Some implies q.len() < h - 1 by {
            lemma_node_at_cons(n, Step::Index(n.index_children@[i].0), q);
            assert(node_at(n, seq![Step::Index(n.index_children@[i].0)] + q) is Some);
        }
    }
    if let Some(b) = n.any_index_child {
        assert forall|q: Seq<Step>| #[trigger] node_at(*b, q) is Some implies q.len() < h - 1 by {
            lemma_node_at_cons(n, Step::Any, q);
            assert(node_at(n, seq![Step::Any] + q) is Some);
        }
    }
}

pub proof fn lemma_height_fold(n: Node, h: nat)
    requires
        h >= 1,
        forall|i: int| 0 <= i < n.key_children@.len() ==> #[trigger] height_le(n.key_children@[i].1, (h - 1) as nat),
        forall|i: int| 0 <= i < n.index_children@.len() ==> #[trigger] height_le(n.index_children@[i].1, (h - 1) as nat),
        n.any_index_child matches Some(b) ==> height_le(*b, (h - 1) as nat),
    ensures
        height_le(n, h),
{
    assert forall|p: Seq<Step>| #[trigger] node_at(n, p) is Some implies p.len() < h by {
        if p.len() > 0 {
            let q = p.drop_first();
            assert(q.len() == p.len() - 1);
            match p[0] {
                Step::Key(k) => {
                    lemma_key_pos_found(n.key_children@, k, 0);
                    let i = key_pos(n.key_children@, k, 0).unwrap();
                    assert(height_le(n.key_children@[i].1, (h - 1) as nat));
                    assert(node_at(n.key_children@[i].1, q) is Some);
                },
                Step::Index(x) => {
                    lemma_index_pos_found(n.index_children@, x, 0);
                    let i = index_pos(n.index_children@, x, 0).unwrap();
                    assert(height_le(n.index_children@[i].1, (h - 1) as nat));
                    assert(node_at(n.index_children@[i].1, q) is Some);
                },
                Step::Any => {
                    assert(height_le(*n.any_index_child.unwrap(), (h - 1) as nat));
                    assert(node_at(*n.any_index_child.unwrap(), q) is Some);
                },
            }
        }
    }
}

pub proof fn lemma_height_mono(n: Node, a: nat, b: nat)
    requires
        height_le(n, a),
        a <= b,
    ensures
        height_le(n, b),
{
}

pub proof fn lemma_empty_height(n: Node)
    requires
        is_empty_node(n),
    ensures
        height_le(n, 1),
{
    assert forall|p: Seq<Step>| #[trigger] node_at(n, p) is Some implies p.len() < 1 by {
        if p.len() > 0 {
            match p[0] {
                Step::Key(k) => { assert(key_pos(n.key_children@, k, 0) is None); },
                Step::Index(x) => { assert(index_pos(n.index_children@, x, 0) is None); },
                Step::Any => {},
            }
            assert(node_at(n, p) is None);
        }
    }
}

/// What the key children of `src` before position `t` contribute at `p`.
pub open spec fn key_contrib(src: Node, p: Seq<Step>, t: int) -> Seq<u32> {
    if p.len() > 0 {
        match p[0] {
            Step::Key(k) => match key_pos(src.key_children@, k, 0) {
                Some(i) => if i < t { actions_at(src, p) } else { Seq::empty() },
                None => Seq::empty(),
            },
            _ => Seq::empty(),
        }
    } else {
        Seq::empty()
    }
}

/// What the index children of `src` before position `t` contribute at `p`.
pub open spec fn index_contrib(src: Node, p: Seq<Step>, t: int) -> Seq<u32> {
    if p.len() > 0 {
        match p[0] {
            Step::Index(x) => match index_pos(src.index_children@, x, 0) {
                Some(i) => if i < t { actions_at(src, p) } else { Seq::empty() },
                None => Seq::empty(),
            },
            _ => Seq::empty(),
        }
    } else {
        Seq::empty()
    }
}

/// Union the `src` subtree into the `dst` subtree: at every pattern path,
/// `dst` gains the fields `src` has there, after its own.
pub fn merge_subtree(dst: &mut Node, src: &Node)
    requires
        wf_node(*old(dst)),
        wf_node(*src),
    ensures
        wf_node(*final(dst)),
        forall|h: nat| height_le(*old(dst), h) && height_le(*src, h) ==> #[trigger] height_le(*final(dst), h),
        forall|p: Seq<Step>| #[trigger] actions_at(*final(dst), p) == actions_at(*old(dst), p) + actions_at(*src, p),
    decreases src,
{
    proof { lemma_wf_unfold(*old(dst)); lemma_wf_unfold(*src); }
    let mut t: usize = 0;
    while t < src.actions.len()
        invariant
            t <= src.actions@.len(),
            dst.actions@ == old(dst).actions@ + src.actions@.take(t as int),
            dst.key_children == old(dst).key_children,
            dst.index_children == old(dst).index_children,
            dst.any_index_child == old(dst).any_index_child,
        decreases src.actions@.len() - t,
    {
        dst.actions.push(src.actions[t]);
        proof {
            assert(src.actions@.take(t + 1) =~= src.actions@.take(t as int).push(src.actions@[t as int]));
        }
        t = t + 1;
    }
    proof {
        assert(src.actions@.take(src.actions@.len() as int) =~= src.actions@);
        lemma_wf_fold(*dst);
        assert forall|h: nat| height_le(*old(dst), h) && height_le(*src, h) implies #[trigger] height_le(*dst, h) by {
            lemma_height_unfold(*old(dst), h);
            lemma_height_fold(*dst, h);
        }
    }
    let ghost dst_a = *dst;
    assert forall|p: Seq<Step>| #[trigger] actions_at(*dst, p) == actions_at(dst_a, p) + key_contrib(*src, p, 0) by {
        if p.len() > 0 {
            if let Step::Key(k) = p[0] {
                lemma_key_pos_found(src.key_children@, k, 0);
            }
        }
        assert(key_contrib(*src, p, 0) =~= Seq::<u32>::empty());
        assert(actions_at(*dst, p) + Seq::<u32>::empty() =~= actions_at(*dst, p));
    }
    let nk = src.key_children.len();
    let mut t: usize = 0;
    while t < nk
        invariant
            nk == src.key_children@.len(),
            t <= nk,
            wf_node(*src),
            distinct_children(*src),
            forall|i: int| 0 <= i < src.key_children@.len() ==> #[trigger] wf_node(src.key_children@[i].1),
            wf_node(*dst),
            dst.actions == dst_a.actions,
            dst.index_children == dst_a.index_children,
            dst.any_index_child == dst_a.any_index_child,
            forall|h: nat| height_le(*old(dst), h) && height_le(*src, h) ==> #[trigger] height_le(*dst, h),
            forall|p: Seq<Step>| #[trigger] actions_at(*dst, p) == actions_at(dst_a, p) + key_contrib(*src, p, t as int),
        decreases nk - t,
    {
        let ghost before = *dst;
        let idx = child_for_key(dst, &src.key_children[t].0);
        let ghost mid = *dst;
        let ghost key = src.key_children@[t as int].0@;
        proof {
            lemma_wf_unfold(before);
            if key_pos(before.key_children@, key, 0) is None {
                lemma_empty_wf(mid.key_children@[idx as int].1);
            }
        }
        merge_subtree(&mut dst.key_children[idx].1, &src.key_children[t].1);
        proof {
            lemma_key_child_update(before, mid, *dst, idx as int, key);
            lemma_key_child_update_wf(before, mid, *dst, idx as int, key);
            lemma_key_pos_distinct(src.key_children@, t as int);
            assert forall|h: nat| height_le(*old(dst), h) && height_le(*src, h) implies #[trigger] height_le(*dst, h) by {
                assert(height_le(before, h));
                lemma_height_unfold(before, h);
                lemma_height_unfold(*src, h);
                assert(height_le(src.key_children@[t as int].1, (h - 1) as nat));
                assert(node_at(src.key_children@[t as int].1, Seq::empty()) is Some);
                if key_pos(before.key_children@, key, 0) is None {
                    lemma_empty_height(mid.key_children@[idx as int].1);
                    lemma_height_mono(mid.key_children@[idx as int].1, 1, (h - 1) as nat);
                } else {
                    assert(height_le(mid.key_children@[idx as int].1, (h - 1) as nat));
                }
                assert(height_le(src.key_children@[t as int].1, (h - 1) as nat));
                assert(height_le(dst.key_children@[idx as int].1, (h - 1) as nat));
                assert forall|i: int| 0 <= i < dst.key_children@.len() implies #[trigger] height_le(dst.key_children@[i].1, (h - 1) as nat) by {
                    if i != idx {
                        if key_pos(before.key_children@, key, 0) is None {
                            assert(mid.key_children@.take(before.key_children@.len() as int)[i] == mid.key_children@[i]);
                        }
                        assert(dst.key_children@[i] == before.key_children@[i]);
                    }
                }
                lemma_height_fold(*dst, h);
            }
            assert forall|p: Seq<Step>| #[trigger] actions_at(*dst, p) == actions_at(dst_a, p) + key_contrib(*src, p, t + 1) by {
                if p.len() > 0 && p[0] == Step::Key(key) {
                    let q = p.drop_first();
                    assert(p =~= seq![Step::Key(key)] + q);
                    assert(actions_at(mid.key_children@[idx as int].1, q) == actions_at(before, p));
                    assert(actions_at(dst.key_children@[idx as int].1, q)
                        == actions_at(mid.key_children@[idx as int].1, q) + actions_at(src.key_children@[t as int].1, q));
                    assert(key_contrib(*src, p, t as int) =~= Seq::<u32>::empty());
                    assert(actions_at(*src, p) == actions_at(src.key_children@[t as int].1, q));
                    assert(actions_at(before, p) + Seq::<u32>::empty() =~= actions_at(before, p));
                } else if p.len() > 0 {
                    assert(actions_at(*dst, p) == actions_at(before, p));
                    if let Step::Key(k2) = p[0] {
                        lemma_key_pos_found(src.key_children@, k2, 0);
                    }
                    assert(key_contrib(*src, p, t + 1) == key_contrib(*src, p, t as int));
                } else {
                    assert(actions_at(*dst, p) == actions_at(before, p));
                }
            }
        }
        t = t + 1;
    }
    let ghost dst_k = *dst;
    assert forall|p: Seq<Step>| #[trigger] actions_at(*dst, p) == actions_at(dst_k, p) + index_contrib(*src, p, 0) by {
        if p.len() > 0 {
            if let Step::Index(x) = p[0] {
                lemma_index_pos_found(src.index_children@, x, 0);
            }
        }
        assert(index_contrib(*src, p, 0) =~= Seq::<u32>::empty());
        assert(actions_at(*dst, p) + Seq::<u32>::empty() =~= actions_at(*dst, p));
    }
    let ni = src.index_children.len();
    let mut t: usize = 0;
    while t < ni
        invariant
            ni == src.index_children@.len(),
            t <= ni,
            wf_node(*src),
            distinct_children(*src),
            forall|i: int| 0 <= i < src.index_children@.len() ==> #[trigger] wf_node(src.index_children@[i].1),
            wf_node(*dst),
            dst.actions == dst_a.actions,
            dst.key_children == dst_k.key_children,
            dst.any_index_child == dst_a.any_index_child,
            forall|h: nat| height_le(*old(dst), h) && height_le(*src, h) ==> #[trigger] height_le(*dst, h),
            forall|p: Seq<Step>| #[trigger] actions_at(*dst, p) == actions_at(dst_k, p) + index_contrib(*src, p, t as int),
        decreases ni - t,
    {
        let ghost before = *dst;
        let x = src.index_children[t].0;
        let idx = child_for_index(dst, x);
        let ghost mid = *dst;
        proof {
            lemma_wf_unfold(before);
            if index_pos(before.index_children@, x, 0) is None {
                lemma_empty_wf(mid.index_children@[idx as int].1);
            }
        }
        merge_subtree(&mut dst.index_children[idx].1, &src.index_children[t].1);
        proof {
            lemma_index_child_update(before, mid, *dst, idx as int, x);
            lemma_index_child_update_wf(before, mid, *dst, idx as int, x);
            lemma_index_pos_distinct(src.index_children@, t as int);
            assert forall|h: nat| height_le(*old(dst), h) && height_le(*src, h) implies #[trigger] height_le(*dst, h) by {
                assert(height_le(before, h));
                lemma_height_unfold(before, h);
                lemma_height_unfold(*src, h);
                assert(height_le(src.index_children@[t as int].1, (h - 1) as nat));
                assert(node_at(src.index_children@[t as int].1, Seq::empty()) is Some);
                if index_pos(before.index_children@, x, 0) is None {
                    lemma_empty_height(mid.index_children@[idx as int].1);
                    lemma_height_mono(mid.index_children@[idx as int].1, 1, (h - 1) as nat);
                } else {
                    assert(height_le(mid.index_children@[idx as int].1, (h - 1) as nat));
                }
                assert(height_le(src.index_children@[t as int].1, (h - 1) as nat));
                assert(height_le(dst.index_children@[idx as int].1, (h - 1) as nat));
                assert forall|i: int| 0 <= i < dst.index_children@.len() implies #[trigger] height_le(dst.index_children@[i].1, (h - 1) as nat) by {
                    if i != idx {
                        if index_pos(before.index_children@, x, 0) is None {
                            assert(mid.index_children@.take(before.index_children@.len() as int)[i] == mid.index_children@[i]);
                        }
                        assert(dst.index_children@[i] == before.index_children@[i]);
                    }
                }
                lemma_height_fold(*dst, h);
            }
            assert forall|p: Seq<Step>| #[trigger] actions_at(*dst, p) == actions_at(dst_k, p) + index_contrib(*src, p, t + 1) by {
                if p.len() > 0 && p[0] == Step::Index(x) {
                    let q = p.drop_first();
                    assert(p =~= seq![Step::Index(x)] + q);
                    assert(actions_at(mid.index_children@[idx as int].1, q) == actions_at(before, p));
                    assert(actions_at(dst.index_children@[idx as int].1, q)
                        == actions_at(mid.index_children@[idx as int].1, q) + actions_at(src.index_children@[t as int].1, q));
                    assert(index_contrib(*src, p, t as int) =~= Seq::<u32>::empty());
                    assert(actions_at(*src, p) == actions_at(src.index_children@[t as int].1, q));
                    assert(actions_at(before, p) + Seq::<u32>::empty() =~= actions_at(before, p));
                } else if p.len() > 0 {
                    assert(actions_at(*dst, p) == actions_at(before, p));
                    if let Step::Index(y) = p[0] {
                        lemma_index_pos_found(src.index_children@, y, 0);
                    }
                    assert(index_contrib(*src, p, t + 1) == index_contrib(*src, p, t as int));
                } else {
                    assert(actions_at(*dst, p) == actions_at(before, p));
                }
            }
        }
        t = t + 1;
    }
    let ghost dst_i = *dst;
    match &src.any_index_child {
        Some(src_any) => {
            let mut child = match dst.any_index_child.take() {
                Some(b) => *b,
                None => Node::new(),
            };
            let ghost child0 = child;
            proof {
                lemma_wf_unfold(dst_i);
                if dst_i.any_index_child is None {
                    lemma_empty_wf(child0);
                }
            }
            merge_subtree(&mut child, src_any);
            let ghost child_fin = child;
            dst.any_index_child = Some(Box::new(child));
            proof {
                lemma_wf_unfold(dst_i);
                lemma_wf_fold(*dst);
                assert forall|h: nat| height_le(*old(dst), h) && height_le(*src, h) implies #[trigger] height_le(*dst, h) by {
                    assert(height_le(dst_i, h));
                    lemma_height_unfold(dst_i, h);
                    lemma_height_unfold(*src, h);
                    assert(height_le(**src_any, (h - 1) as nat));
                    assert(node_at(**src_any, Seq::empty()) is Some);
                    if dst_i.any_index_child is None {
                        lemma_empty_height(child0);
                        lemma_height_mono(child0, 1, (h - 1) as nat);
                    }
                    assert(height_le(child0, (h - 1) as nat));
                    assert(height_le(**src_any, (h - 1) as nat));
                    assert(height_le(child_fin, (h - 1) as nat));
                    lemma_height_fold(*dst, h);
                }
                assert forall|p: Seq<Step>| #[trigger] actions_at(*dst, p) == actions_at(*old(dst), p) + actions_at(*src, p) by {
                    if p.len() > 0 {
                        let q = p.drop_first();
                        assert(actions_at(dst_k, p) == actions_at(dst_a, p) + key_contrib(*src, p, nk as int));
                        assert(actions_at(dst_i, p) == actions_at(dst_k, p) + index_contrib(*src, p, ni as int));
                        assert(actions_at(dst_a, p) == actions_at(*old(dst), p));
                        match p[0] {
                            Step::Any => {
                                if dst_i.any_index_child is None {
                                    lemma_empty_actions(child0, q);
                                }
                                assert(actions_at(child_fin, q) == actions_at(child0, q) + actions_at(**src_any, q));
                                assert(key_contrib(*src, p, nk as int) =~= Seq::<u32>::empty());
                                assert(index_contrib(*src, p, ni as int) =~= Seq::<u32>::empty());
                                assert(actions_at(dst_a, p) + Seq::<u32>::empty() =~= actions_at(dst_a, p));
                            },
                            Step::Key(k) => {
                                lemma_key_pos_found(src.key_children@, k, 0);
                                assert(index_contrib(*src, p, ni as int) =~= Seq::<u32>::empty());
                                assert(actions_at(dst_k, p) + Seq::<u32>::empty() =~= actions_at(dst_k, p));
                                if key_pos(src.key_children@, k, 0) is None {
                                    assert(actions_at(*src, p) =~= Seq::<u32>::empty());
                                    assert(actions_at(dst_a, p) + Seq::<u32>::empty() =~= actions_at(dst_a, p));
                                }
                            },
                            Step::Index(x) => {
                                lemma_index_pos_found(src.index_children@, x, 0);
                                assert(key_contrib(*src, p, nk as int) =~= Seq::<u32>::empty());
                                assert(actions_at(dst_a, p) + Seq::<u32>::empty() =~= actions_at(dst_a, p));
                                if index_pos(src.index_children@, x, 0) is None {
                                    assert(actions_at(*src, p) =~= Seq::<u32>::empty());
                                    assert(actions_at(dst_k, p) + Seq::<u32>::empty() =~= actions_at(dst_k, p));
                                }
                            },
                        }
                    }
                }
            }
        }
        None => {
            proof {
                assert forall|p: Seq<Step>| #[trigger] actions_at(*dst, p) == actions_at(*old(dst), p) + actions_at(*src, p) by {
                    if p.len() > 0 {
                        assert(actions_at(dst_k, p) == actions_at(dst_a, p) + key_contrib(*src, p, nk as int));
                        assert(actions_at(dst_i, p) == actions_at(dst_k, p) + index_contrib(*src, p, ni as int));
                        assert(actions_at(dst_a, p) == actions_at(*old(dst), p));
                        match p[0] {
                            Step::Any => {
                                assert(key_contrib(*src, p, nk as int) =~= Seq::<u32>::empty());
                                assert(index_contrib(*src, p, ni as int) =~= Seq::<u32>::empty());
                                assert(actions_at(*src, p) =~= Seq::<u32>::empty());
                                assert(actions_at(dst_a, p) + Seq::<u32>::empty() =~= actions_at(dst_a, p));
                            },
                            Step::Key(k) => {
                                lemma_key_pos_found(src.key_children@, k, 0);
                                assert(index_contrib(*src, p, ni as int) =~= Seq::<u32>::empty());
                                assert(actions_at(dst_k, p) + Seq::<u32>::empty() =~= actions_at(dst_k, p));
                                if key_pos(src.key_children@, k, 0) is None {
                                    assert(actions_at(*src, p) =~= Seq::<u32>::empty());
                                    assert(actions_at(dst_a, p) + Seq::<u32>::empty() =~= actions_at(dst_a, p));
                                }
                            },
                            Step::Index(x) => {
                                lemma_index_pos_found(src.index_children@, x, 0);
                                assert(key_contrib(*src, p, nk as int) =~= Seq::<u32>::empty());
                                assert(actions_at(dst_a, p) + Seq::<u32>::empty() =~= actions_at(dst_a, p));
                                if index_pos(src.index_children@, x, 0) is None {
                                    assert(actions_at(*src, p) =~= Seq::<u32>::empty());
                                    assert(actions_at(dst_k, p) + Seq::<u32>::empty() =~= actions_at(dst_k, p));
                                }
                            },
                        }
                    }
                }
            }
        }
    }
}

/// A step of a concrete document path: an object member or an array element.
pub enum Elem {
    Member(Seq<char>),
    Element(nat),
}

/// Whether a pattern step accepts a concrete step.
pub open spec fn step_matches(s: Step, e: Elem) -> bool {
    match (s, e) {
        (Step::Key(k), Elem::Member(m)) => k == m,
        (Step::Index(x), Elem::Element(i)) => x as nat == i,
        (Step::Any, Elem::Element(_)) => true,
        _ => false,
    }
}

pub open spec fn path_matches(p: Seq<Step>, q: Seq<Elem>) -> bool {
    p.len() == q.len() && forall|i: int| 0 <= i < p.len() ==> #[trigger] step_matches(p[i], q[i])
}

/// Some field `f` sits at a pattern path that accepts the concrete path `q`.
pub open spec fn pattern_has(n: Node, q: Seq<Elem>, f: u32) -> bool {
    exists|p: Seq<Step>| path_matches(p, q) && #[trigger] actions_at(n, p).contains(f)
}

/// The node a document position at concrete path `q` is matched against:
/// members by key; elements by their fixed index when the node has that
/// index child (indices past `u16::MAX` never do), else by the wildcard child.
pub open spec fn resolve(n: Node, q: Seq<Elem>) -> Option<Node>
    decreases q.len(),
{
    if q.len() == 0 {
        Some(n)
    } else {
        match q[0] {
            Elem::Member(k) => match key_pos(n.key_children@, k, 0) {
                Some(i) => resolve(n.key_children@[i].1, q.drop_first()),
                None => None,
            },
            Elem::Element(i) => {
                let fixed = if i <= 0xFFFF { index_pos(n.index_children@, i as u16, 0) } else { None };
                match fixed {
                    Some(j) => resolve(n.index_children@[j].1, q.drop_first()),
                    None => match n.any_index_child {
                        Some(b) => resolve(*b, q.drop_first()),
                        None => None,
                    },
                }
            },
        }
    }
}

pub open spec fn resolve_has(n: Node, q: Seq<Elem>, f: u32) -> bool {
    resolve(n, q) matches Some(m) && m.actions@.contains(f)
}

pub proof fn lemma_path_matches_cons(s: Step, p: Seq<Step>, e: Elem, q: Seq<Elem>)
    ensures
        path_matches(seq![s] + p, seq![e] + q) <==> step_matches(s, e) && path_matches(p, q),
{
    let pp = seq![s] + p;
    let qq = seq![e] + q;
    if path_matches(pp, qq) {
        assert(step_matches(pp[0], qq[0]));
        assert forall|i: int| 0 <= i < p.len() implies #[trigger] step_matches(p[i], q[i]) by {
            assert(step_matches(pp[i + 1], qq[i + 1]));
        }
    }
    if step_matches(s, e) && path_matches(p, q) {
        assert forall|i: int| 0 <= i < pp.len() implies #[trigger] step_matches(pp[i], qq[i]) by {
            if i > 0 {
                assert(step_matches(p[i - 1], q[i - 1]));
            }
        }
    }
}

pub proof fn lemma_pattern_empty(n: Node, f: u32)
    ensures
        pattern_has(n, Seq::empty(), f) <==> n.actions@.contains(f),
{
    if n.actions@.contains(f) {
        assert(path_matches(Seq::empty(), Seq::empty()));
        assert(actions_at(n, Seq::empty()).contains(f));
    }
    if pattern_has(n, Seq::empty(), f) {
        let p = choose|p: Seq<Step>| path_matches(p, Seq::empty()) && #[trigger] actions_at(n, p).contains(f);
        assert(p =~= Seq::<Step>::empty());
    }
}

/// A concrete member step is matched only by the same key.
pub proof fn lemma_pattern_member(n: Node, k: Seq<char>, q: Seq<Elem>, f: u32)
    ensures
        pattern_has(n, seq![Elem::Member(k)] + q, f) <==> (key_pos(n.key_children@, k, 0) matches Some(j)
            && pattern_has(n.key_children@[j].1, q, f)),
{
    let qq = seq![Elem::Member(k)] + q;
    if pattern_has(n, qq, f) {
        let p = choose|p: Seq<Step>| path_matches(p, qq) && #[trigger] actions_at(n, p).contains(f);
        assert(step_matches(p[0], qq[0]));
        let pr = p.drop_first();
        assert(p =~= seq![p[0]] + pr);
        assert(qq.drop_first() =~= q);
        lemma_path_matches_cons(p[0], pr, Elem::Member(k), q);
        lemma_node_at_cons(n, p[0], pr);
        let j = key_pos(n.key_children@, k, 0).unwrap();
        assert(actions_at(n.key_children@[j].1, pr).contains(f));
    }
    if let Some(j) = key_pos(n.key_children@, k, 0) {
        if pattern_has(n.key_children@[j].1, q, f) {
            let pr = choose|p: Seq<Step>| path_matches(p, q) && #[trigger] actions_at(n.key_children@[j].1, p).contains(f);
            lemma_path_matches_cons(Step::Key(k), pr, Elem::Member(k), q);
            lemma_node_at_cons(n, Step::Key(k), pr);
            assert(actions_at(n, seq![Step::Key(k)] + pr).contains(f));
        }
    }
}

pub open spec fn fixed_pattern_has(n: Node, i: nat, q: Seq<Elem>, f: u32) -> bool {
    i <= 0xFFFF && match index_pos(n.index_children@, i as u16, 0) {
        Some(j) => pattern_has(n.index_children@[j].1, q, f),
        None => false,
    }
}

pub open spec fn any_pattern_has(n: Node, q: Seq<Elem>, f: u32) -> bool {
    match n.any_index_child {
        Some(b) => pattern_has(*b, q, f),
        None => false,
    }
}

/// A concrete element step is matched by its fixed index and by `Any`.
pub proof fn lemma_pattern_element(n: Node, i: nat, q: Seq<Elem>, f: u32)
    ensures
        pattern_has(n, seq![Elem::Element(i)] + q, f) <==> (fixed_pattern_has(n, i, q, f) || any_pattern_has(n, q, f)),
{
    let qq = seq![Elem::Element(i)] + q;
    assert(qq.drop_first() =~= q);
    if pattern_has(n, qq, f) {
        let p = choose|p: Seq<Step>| path_matches(p, qq) && #[trigger] actions_at(n, p).contains(f);
        assert(step_matches(p[0], qq[0]));
        let pr = p.drop_first();
        assert(p =~= seq![p[0]] + pr);
        lemma_path_matches_cons(p[0], pr, Elem::Element(i), q);
        lemma_node_at_cons(n, p[0], pr);
        match p[0] {
            Step::Index(x) => {
                let j = index_pos(n.index_children@, x, 0).unwrap();
                assert(x as nat == i);
                assert(x == i as u16);
                assert(actions_at(n.index_children@[j].1, pr).contains(f));
            },
            Step::Any => {
                assert(actions_at(*n.any_index_child.unwrap(), pr).contains(f));
            },
            Step::Key(_) => {},
        }
    }
    if i <= 0xFFFF {
        if let Some(j) = index_pos(n.index_children@, i as u16, 0) {
            if pattern_has(n.index_children@[j].1, q, f) {
                let pr = choose|p: Seq<Step>| path_matches(p, q) && #[trigger] actions_at(n.index_children@[j].1, p).contains(f);
                lemma_path_matches_cons(Step::Index(i as u16), pr, Elem::Element(i), q);
                lemma_node_at_cons(n, Step::Index(i as u16), pr);
                assert(actions_at(n, seq![Step::Index(i as u16)] + pr).contains(f));
            }
        }
    }
    if let Some(b) = n.any_index_child {
        if pattern_has(*b, q, f) {
            let pr = choose|p: Seq<Step>| path_matches(p, q) && #[trigger] actions_at(*b, p).contains(f);
            lemma_path_matches_cons(Step::Any, pr, Elem::Element(i), q);
            lemma_node_at_cons(n, Step::Any, pr);
            assert(actions_at(n, seq![Step::Any] + pr).contains(f));
        }
    }
}

pub proof fn lemma_pattern_merge(c: Node, w: Node, c1: Node)
    requires
        forall|p: Seq<Step>| #[trigger] actions_at(c1, p) == actions_at(c, p) + actions_at(w, p),
    ensures
        forall|q: Seq<Elem>, f: u32| #[trigger] pattern_has(c1, q, f) <==> pattern_has(c, q, f) || pattern_has(w, q, f),
{
    assert forall|q: Seq<Elem>, f: u32| #[trigger] pattern_has(c1, q, f) <==> pattern_has(c, q, f) || pattern_has(w, q, f) by {
        if pattern_has(c1, q, f) {
            let p = choose|p: Seq<Step>| path_matches(p, q) && #[trigger] actions_at(c1, p).contains(f);
            let k = choose|k: int| 0 <= k < actions_at(c1, p).len() && actions_at(c1, p)[k] == f;
            if k < actions_at(c, p).len() {
                assert(actions_at(c, p)[k] == f);
                assert(actions_at(c, p).contains(f));
            } else {
                assert(actions_at(w, p)[k - actions_at(c, p).len()] == f);
                assert(actions_at(w, p).contains(f));
            }
        }
        if pattern_has(c, q, f) {
            let p = choose|p: Seq<Step>| path_matches(p, q) && #[trigger] actions_at(c, p).contains(f);
            let k = choose|k: int| 0 <= k < actions_at(c, p).len() && actions_at(c, p)[k] == f;
            assert(actions_at(c1, p)[k] == f);
            assert(actions_at(c1, p).contains(f));
        }
        if pattern_has(w, q, f) {
            let p = choose|p: Seq<Step>| path_matches(p, q) && #[trigger] actions_at(w, p).contains(f);
            let k = choose|k: int| 0 <= k < actions_at(w, p).len() && actions_at(w, p)[k] == f;
            assert(actions_at(c1, p)[actions_at(c, p).len() + k] == f);
            assert(actions_at(c1, p).contains(f));
        }
    }
}

/// Every node reached by a pattern path is also reached by resolving some
/// concrete path: a key by the member with that key, a fixed index by that
/// element, the wildcard by an element past every fixed index.
pub proof fn lemma_node_at_resolves(n: Node, p: Seq<Step>) -> (q: Seq<Elem>)
    requires
        node_at(n, p) is Some,
    ensures
        resolve(n, q) == node_at(n, p),
    decreases p.len(),
{
    if p.len() == 0 {
        Seq::empty()
    } else {
        let rest = p.drop_first();
        match p[0] {
            Step::Key(k) => {
                let i = key_pos(n.key_children@, k, 0).unwrap();
                let q1 = lemma_node_at_resolves(n.key_children@[i].1, rest);
                let q = seq![Elem::Member(k)] + q1;
                assert(q[0] == Elem::Member(k));
                assert(q.drop_first() =~= q1);
                q
            },
            Step::Index(x) => {
                let i = index_pos(n.index_children@, x, 0).unwrap();
                let q1 = lemma_node_at_resolves(n.index_children@[i].1, rest);
                let q = seq![Elem::Element(x as nat)] + q1;
                assert(q[0] == Elem::Element(x as nat));
                assert(q.drop_first() =~= q1);
                q
            },
            Step::Any => {
                let c = n.any_index_child.unwrap();
                let q1 = lemma_node_at_resolves(*c, rest);
                let q = seq![Elem::Element(0x10000)] + q1;
                assert(q[0] == Elem::Element(0x10000));
                assert(q.drop_first() =~= q1);
                q
            },
        }
    }
}

/// `fin` resolves every concrete path to exactly the fields whose pattern
/// paths in `orig` accept it.
pub open spec fn normalizes(fin: Node, orig: Node) -> bool {
    forall|q: Seq<Elem>, f: u32| #[trigger] resolve_has(fin, q, f) <==> pattern_has(orig, q, f)
}

/// What merging the wildcards gives an array at a node: element `i`, with
/// the rest of its path `q`, resolves to one node, and that node holds field
/// `f` exactly when `f` lies below the node's fixed index `i` or below its
/// wildcard, along `q`.
pub proof fn lemma_merged_element(fin: Node, orig: Node, i: nat, q: Seq<Elem>, f: u32)
    requires
        normalizes(fin, orig),
    ensures
        resolve_has(fin, seq![Elem::Element(i)] + q, f)
            <==> (fixed_pattern_has(orig, i, q, f) || any_pattern_has(orig, q, f)),
{
    lemma_pattern_element(orig, i, q, f);
}

pub proof fn lemma_norm_node(old_n: Node, fin: Node)
    requires
        distinct_children(old_n),
        fin.actions == old_n.actions,
        fin.key_children@.len() == old_n.key_children@.len(),
        forall|t: int| 0 <= t < old_n.key_children@.len() ==> (#[trigger] fin.key_children@[t]).0 == old_n.key_children@[t].0,
        forall|t: int| 0 <= t < old_n.key_children@.len() ==> normalizes(#[trigger] fin.key_children@[t].1, old_n.key_children@[t].1),
        fin.index_children@.len() == old_n.index_children@.len(),
        forall|t: int| 0 <= t < old_n.index_children@.len() ==> (#[trigger] fin.index_children@[t]).0 == old_n.index_children@[t].0,
        forall|t: int, q: Seq<Elem>, f: u32| 0 <= t < old_n.index_children@.len() ==>
            (#[trigger] resolve_has(fin.index_children@[t].1, q, f) <==> pattern_has(old_n.index_children@[t].1, q, f) || any_pattern_has(old_n, q, f)),
        fin.any_index_child is Some <==> old_n.any_index_child is Some,
        fin.any_index_child is Some ==> normalizes(*fin.any_index_child.unwrap(), *old_n.any_index_child.unwrap()),
    ensures
        normalizes(fin, old_n),
{
    assert forall|q: Seq<Elem>, f: u32| #[trigger] resolve_has(fin, q, f) <==> pattern_has(old_n, q, f) by {
        if q.len() == 0 {
            lemma_pattern_empty(old_n, f);
        } else {
            let qr = q.drop_first();
            assert(q =~= seq![q[0]] + qr);
            match q[0] {
                Elem::Member(k) => {
                    lemma_pattern_member(old_n, k, qr, f);
                    lemma_key_pos_same_keys(fin.key_children@, old_n.key_children@, k, 0);
                    lemma_key_pos_found(old_n.key_children@, k, 0);
                    if let Some(j) = key_pos(old_n.key_children@, k, 0) {
                        assert(normalizes(fin.key_children@[j].1, old_n.key_children@[j].1));
                        assert(resolve_has(fin.key_children@[j].1, qr, f) <==> pattern_has(old_n.key_children@[j].1, qr, f));
                    }
                },
                Elem::Element(i) => {
                    lemma_pattern_element(old_n, i, qr, f);
                    if i <= 0xFFFF {
                        lemma_index_pos_same_keys(fin.index_children@, old_n.index_children@, i as u16, 0);
                        lemma_index_pos_found(old_n.index_children@, i as u16, 0);
                    }
                    let fixed = if i <= 0xFFFF { index_pos(old_n.index_children@, i as u16, 0) } else { None };
                    match fixed {
                        Some(j) => {
                            assert(resolve_has(fin.index_children@[j].1, qr, f)
                                <==> pattern_has(old_n.index_children@[j].1, qr, f) || any_pattern_has(old_n, qr, f));
                        },
                        None => {
                            assert(!fixed_pattern_has(old_n, i, qr, f));
                            if let Some(b) = fin.any_index_child {
                                assert(normalizes(*b, *old_n.any_index_child.unwrap()));
                                assert(resolve_has(*b, qr, f) <==> pattern_has(*old_n.any_index_child.unwrap(), qr, f));
                            }
                        },
                    }
                },
            }
        }
    }
}

/// Wherever a node has both fixed-index children and a wildcard child, merge
/// the wildcard subtree into each fixed subtree, so that each array element
/// resolves to one node holding every field whose pattern accepts it.
/// Compile-time cost: every fixed-index sibling gets its own copy of the
/// wildcard subtree, so patterns stacking wildcards under many fixed indices
/// at several levels can grow multiplicatively.
pub fn merge_wildcards(node: &mut Node, Ghost(h): Ghost<nat>)
    requires
        wf_node(*old(node)),
        height_le(*old(node), h),
    ensures
        wf_node(*final(node)),
        height_le(*final(node), h),
        normalizes(*final(node), *old(node)),
    decreases h,
{
    proof {
        lemma_wf_unfold(*old(node));
        lemma_height_unfold(*old(node), h);
    }
    let ni = node.index_children.len();
    if node.any_index_child.is_some() {
        let any_box = node.any_index_child.take().unwrap();
        let mut t: usize = 0;
        while t < ni
            invariant
                ni == old(node).index_children@.len(),
                t <= ni,
                node.index_children@.len() == ni,
                node.key_children == old(node).key_children,
                node.actions == old(node).actions,
                node.any_index_child is None,
                old(node).any_index_child == Some(any_box),
                wf_node(*any_box),
                height_le(*any_box, (h - 1) as nat),
                h >= 1,
                forall|j: int| 0 <= j < ni ==> (#[trigger] node.index_children@[j]).0 == old(node).index_children@[j].0,
                forall|j: int| t <= j < ni ==> #[trigger] node.index_children@[j] == old(node).index_children@[j],
                forall|j: int| 0 <= j < ni ==> #[trigger] wf_node(node.index_children@[j].1),
                forall|j: int| 0 <= j < ni ==> #[trigger] height_le(node.index_children@[j].1, (h - 1) as nat),
                forall|j: int, p: Seq<Step>| 0 <= j < t ==> #[trigger] actions_at(node.index_children@[j].1, p)
                    == actions_at(old(node).index_children@[j].1, p) + actions_at(*any_box, p),
            decreases ni - t,
        {
            let ghost before = node.index_children@;
            merge_subtree(&mut node.index_children[t].1, &any_box);
            proof {
                assert forall|j: int| 0 <= j < ni && j != t implies #[trigger] node.index_children@[j] == before[j] by {}
                assert(height_le(before[t as int].1, (h - 1) as nat));
            }
            t = t + 1;
        }
        node.any_index_child = Some(any_box);
    }
    let ghost phase1 = *node;
    let nk = node.key_children.len();
    let mut t: usize = 0;
    while t < nk
        invariant
            nk == old(node).key_children@.len(),
            t <= nk,
            h >= 1,
            node.key_children@.len() == nk,
            node.index_children == phase1.index_children,
            node.any_index_child == phase1.any_index_child,
            node.actions == old(node).actions,
            forall|j: int| 0 <= j < nk ==> (#[trigger] node.key_children@[j]).0 == old(node).key_children@[j].0,
            forall|j: int| t <= j < nk ==> #[trigger] node.key_children@[j] == old(node).key_children@[j],
            forall|j: int| 0 <= j < nk ==> #[trigger] wf_node(node.key_children@[j].1),
            forall|j: int| 0 <= j < nk ==> #[trigger] height_le(node.key_children@[j].1, (h - 1) as nat),
            forall|j: int| 0 <= j < t ==> normalizes(#[trigger] node.key_children@[j].1, old(node).key_children@[j].1),
        decreases nk - t,
    {
        let ghost before = node.key_children@;
        merge_wildcards(&mut node.key_children[t].1, Ghost((h - 1) as nat));
        proof {
            assert forall|j: int| 0 <= j < nk && j != t implies #[trigger] node.key_children@[j] == before[j] by {}
        }
        t = t + 1;
    }
    let mut t: usize = 0;
    while t < ni
        invariant
            ni == old(node).index_children@.len(),
            nk == old(node).key_children@.len(),
            t <= ni,
            h >= 1,
            node.index_children@.len() == ni,
            node.key_children@.len() == nk,
            node.any_index_child == phase1.any_index_child,
            node.actions == old(node).actions,
            forall|j: int| 0 <= j < nk ==> (#[trigger] node.key_children@[j]).0 == old(node).key_children@[j].0,
            forall|j: int| 0 <= j < nk ==> #[trigger] wf_node(node.key_children@[j].1),
            forall|j: int| 0 <= j < nk ==> #[trigger] height_le(node.key_children@[j].1, (h - 1) as nat),
            forall|j: int| 0 <= j < nk ==> normalizes(#[trigger] node.key_children@[j].1, old(node).key_children@[j].1),
            forall|j: int| 0 <= j < ni ==> (#[trigger] node.index_children@[j]).0 == old(node).index_children@[j].0,
            forall|j: int| t <= j < ni ==> #[trigger] node.index_children@[j] == phase1.index_children@[j],
            forall|j: int| 0 <= j < ni ==> #[trigger] wf_node(phase1.index_children@[j].1),
            forall|j: int| 0 <= j < ni ==> #[trigger] height_le(phase1.index_children@[j].1, (h - 1) as nat),
            forall|j: int| 0 <= j < ni ==> #[trigger] wf_node(node.index_children@[j].1),
            forall|j: int| 0 <= j < ni ==> #[trigger] height_le(node.index_children@[j].1, (h - 1) as nat),
            forall|j: int| 0 <= j < t ==> normalizes(#[trigger] node.index_children@[j].1, phase1.index_children@[j].1),
        decreases ni - t,
    {
        let ghost before = node.index_children@;
        merge_wildcards(&mut node.index_children[t].1, Ghost((h - 1) as nat));
        proof {
            assert forall|j: int| 0 <= j < ni && j != t implies #[trigger] node.index_children@[j] == before[j] by {}
        }
        t = t + 1;
    }
    if node.any_index_child.is_some() {
        let mut any_box = node.any_index_child.take().unwrap();
        merge_wildcards(&mut *any_box, Ghost((h - 1) as nat));
        node.any_index_child = Some(any_box);
    }
    proof {
        assert forall|j: int, q: Seq<Elem>, f: u32| 0 <= j < ni implies
            (#[trigger] resolve_has(node.index_children@[j].1, q, f) <==> pattern_has(old(node).index_children@[j].1, q, f) || any_pattern_has(*old(node), q, f)) by {
            assert(normalizes(node.index_children@[j].1, phase1.index_children@[j].1));
            if let Some(w) = old(node).any_index_child {
                lemma_pattern_merge(old(node).index_children@[j].1, *w, phase1.index_children@[j].1);
            } else {
                assert(phase1.index_children@[j] == old(node).index_children@[j]);
            }
        }
        lemma_norm_node(*old(node), *node);
        assert(distinct_children(*node)) by {
            assert forall|i: int, j: int| 0 <= i < j < node.key_children@.len()
                implies (#[trigger] node.key_children@[i]).0@ != (#[trigger] node.key_children@[j]).0@ by {
                assert(old(node).key_children@[i].0@ != old(node).key_children@[j].0@);
            }
            assert forall|i: int, j: int| 0 <= i < j < node.index_children@.len()
                implies (#[trigger] node.index_children@[i]).0 != (#[trigger] node.index_children@[j]).0 by {
                assert(old(node).index_children@[i].0 != old(node).index_children@[j].0);
            }
        }
        lemma_wf_fold(*node);
        lemma_height_fold(*node, h);
    }
}

/// Resolving a path in two parts: first `q`, then `q2` from where `q` led.
pub proof fn lemma_resolve_concat(n: Node, q: Seq<Elem>, q2: Seq<Elem>)
    ensures
        resolve(n, q + q2) == match resolve(n, q) {
            Some(m) => resolve(m, q2),
            None => None,
        },
    decreases q.len(),
{
    if q.len() == 0 {
        assert(q + q2 =~= q2);
    } else {
        let qq = q + q2;
        assert(qq[0] == q[0]);
        assert(qq.drop_first() =~= q.drop_first() + q2);
        match q[0] {
            Elem::Member(k) => {
                if let Some(i) = key_pos(n.key_children@, k, 0) {
                    lemma_resolve_concat(n.key_children@[i].1, q.drop_first(), q2);
                }
            },
            Elem::Element(i) => {
                let fixed = if i <= 0xFFFF { index_pos(n.index_children@, i as u16, 0) } else { None };
                match fixed {
                    Some(j) => lemma_resolve_concat(n.index_children@[j].1, q.drop_first(), q2),
                    None => if let Some(c) = n.any_index_child {
                        lemma_resolve_concat(*c, q.drop_first(), q2);
                    },
                }
            },
        }
    }
}

/// A node a concrete path resolves to is a node of the trie: some pattern
/// path leads to it.
pub proof fn lemma_resolve_node_at(n: Node, q: Seq<Elem>) -> (p: Seq<Step>)
    requires
        resolve(n, q) is Some,
    ensures
        node_at(n, p) == resolve(n, q),
    decreases q.len(),
{
    if q.len() == 0 {
        Seq::empty()
    } else {
        let rest = q.drop_first();
        match q[0] {
            Elem::Member(k) => {
                let i = key_pos(n.key_children@, k, 0)->Some_0;
                let p1 = lemma_resolve_node_at(n.key_children@[i].1, rest);
                let p = seq![Step::Key(k)] + p1;
                assert(p[0] == Step::Key(k));
                assert(p.drop_first() =~= p1);
                p
            },
            Elem::Element(i) => {
                let fixed = if i <= 0xFFFF { index_pos(n.index_children@, i as u16, 0) } else { None };
                match fixed {
                    Some(j) => {
                        let p1 = lemma_resolve_node_at(n.index_children@[j].1, rest);
                        let p = seq![Step::Index(i as u16)] + p1;
                        assert(p[0] == Step::Index(i as u16));
                        assert(p.drop_first() =~= p1);
                        p
                    },
                    None => {
                        let c = n.any_index_child->Some_0;
                        let p1 = lemma_resolve_node_at(*c, rest);
                        let p = seq![Step::Any] + p1;
                        assert(p[0] == Step::Any);
                        assert(p.drop_first() =~= p1);
                        p
                    },
                }
            },
        }
    }
}

/// A concrete path that a pattern path accepts: keys as members, indices as
/// elements, wildcards as element 0.
pub open spec fn some_path(p: Seq<Step>) -> Seq<Elem> {
    p.map_values(|s: Step| match s {
        Step::Key(k) => Elem::Member(k),
        Step::Index(x) => Elem::Element(x as nat),
        Step::Any => Elem::Element(0),
    })
}

/// A pattern path accepts a concrete path exactly when both halves do.
pub proof fn lemma_path_matches_split(p: Seq<Step>, q: Seq<Elem>, n: int)
    requires
        0 <= n <= p.len(),
        p.len() == q.len(),
    ensures
        path_matches(p, q) <==> path_matches(p.take(n), q.take(n)) && path_matches(p.skip(n), q.skip(n)),
{
    if path_matches(p.take(n), q.take(n)) && path_matches(p.skip(n), q.skip(n)) {
        assert forall|i: int| 0 <= i < p.len() implies #[trigger] step_matches(p[i], q[i]) by {
            if i < n {
                assert(step_matches(p.take(n)[i], q.take(n)[i]));
            } else {
                assert(step_matches(p.skip(n)[i - n], q.skip(n)[i - n]));
            }
        }
    }
    if path_matches(p, q) {
        assert forall|i: int| 0 <= i < n implies #[trigger] step_matches(p.take(n)[i], q.take(n)[i]) by {
            assert(step_matches(p[i], q[i]));
        }
        assert forall|i: int| 0 <= i < p.len() - n implies #[trigger] step_matches(p.skip(n)[i], q.skip(n)[i]) by {
            assert(step_matches(p[i + n], q[i + n]));
        }
    }
}

/// A pattern path accepts [`some_path`] of itself.
pub proof fn lemma_some_path(p: Seq<Step>)
    ensures
        path_matches(p, some_path(p)),
{
    assert forall|i: int| 0 <= i < p.len() implies #[trigger] step_matches(p[i], some_path(p)[i]) by {}
}

} // verus!
