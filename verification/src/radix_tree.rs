//! A set of boards kept as a tree: the compressed form of a board is read as
//! five bytes, and each byte leads one node further down.

use crate::board::Board;
use crate::compress::{pack, unpack};
use vstd::prelude::*;

verus! {

/// The keys of the tree are below this: they have five bytes.
pub const KEY_LIMIT: u64 = 0x100_0000_0000;

/// A node of the tree: where each byte leads, and whether a key ends here.
pub struct Node {
    children: Vec<(u8, usize)>,
    terminal: bool,
}

/// A set of boards, by their compressed forms. Its view is the set of the
/// compressed forms it holds.
pub struct RadixTree {
    nodes: Vec<Node>,
    len: usize,
}

/// The byte of a key that is read at depth `depth`: the highest of the five
/// bytes at depth 0.
pub open spec fn key_byte(key: u64, depth: int) -> u8 {
    ((key >> ((32 - 8 * depth) as u64)) & 0xff) as u8
}

/// The place of the first entry for `byte` among the entries from `from` on.
pub closed spec fn first_match(children: Seq<(u8, usize)>, byte: u8, from: int) -> Option<int>
    decreases children.len() - from,
{
    if from < 0 || from >= children.len() {
        None
    } else if children[from].0 == byte {
        Some(from)
    } else {
        first_match(children, byte, from + 1)
    }
}

/// The node to which `byte` leads from a node with these entries.
pub closed spec fn child_of(children: Seq<(u8, usize)>, byte: u8) -> Option<int> {
    match first_match(children, byte, 0) {
        Some(t) => Some(children[t].1 as int),
        None => None,
    }
}

/// The node that the first `depth` bytes of the key lead to from the root.
pub closed spec fn descend(nodes: Seq<Node>, key: u64, depth: int) -> Option<int>
    decreases depth,
{
    if depth <= 0 {
        Some(0)
    } else {
        match descend(nodes, key, depth - 1) {
            Some(n) => if 0 <= n < nodes.len() {
                child_of(nodes[n].children@, key_byte(key, depth - 1))
            } else {
                None
            },
            None => None,
        }
    }
}

/// The tree holds the key: its five bytes lead to a node where a key ends.
pub closed spec fn holds(nodes: Seq<Node>, key: u64) -> bool {
    key < KEY_LIMIT && (descend(nodes, key, 5) matches Some(n) && 0 <= n < nodes.len()
        && nodes[n].terminal)
}

/// The entries of the nodes lead to later nodes, no node is led to twice, and
/// a node has one entry for a byte at most.
pub closed spec fn shaped(nodes: Seq<Node>) -> bool {
    &&& nodes.len() >= 1
    &&& forall|i: int, t: int, u: int|
        0 <= i < nodes.len() && 0 <= t < u < nodes[i].children@.len() ==> (
        #[trigger] nodes[i].children@[t]).0 != (#[trigger] nodes[i].children@[u]).0
    &&& forall|i: int, t: int|
        0 <= i < nodes.len() && 0 <= t < nodes[i].children@.len() ==> i < (
        #[trigger] nodes[i].children@[t]).1 < nodes.len()
    &&& forall|i: int, t: int, j: int, u: int|
        0 <= i < nodes.len() && 0 <= t < nodes[i].children@.len() && 0 <= j < nodes.len() && 0
            <= u < nodes[j].children@.len() && (#[trigger] nodes[i].children@[t]).1 == (
        #[trigger] nodes[j].children@[u]).1 ==> i == j && t == u
}

impl View for RadixTree {
    type V = Set<u64>;

    closed spec fn view(&self) -> Set<u64> {
        Set::new(|key: u64| holds(self.nodes@, key))
    }
}

proof fn lemma_key_bytes(a: u64, b: u64)
    by (bit_vector)
    requires
        a < KEY_LIMIT,
        b < KEY_LIMIT,
        (a >> 32) & 0xff == (b >> 32) & 0xff,
        (a >> 24) & 0xff == (b >> 24) & 0xff,
        (a >> 16) & 0xff == (b >> 16) & 0xff,
        (a >> 8) & 0xff == (b >> 8) & 0xff,
        (a >> 0) & 0xff == (b >> 0) & 0xff,
    ensures
        a == b,
{
}

proof fn lemma_byte_fits(a: u64, s: u64)
    by (bit_vector)
    ensures
        (a >> s) & 0xff <= 0xff,
{
}

/// What the first entry for a byte is: an entry for the byte, with none for
/// the byte before it.
proof fn lemma_first_match(children: Seq<(u8, usize)>, byte: u8, from: int)
    requires
        0 <= from <= children.len(),
    ensures
        match first_match(children, byte, from) {
            Some(t) => from <= t < children.len() && children[t].0 == byte && forall|k: int|
                from <= k < t ==> children[k].0 != byte,
            None => forall|k: int| from <= k < children.len() ==> children[k].0 != byte,
        },
    decreases children.len() - from,
{
    if from < children.len() && children[from].0 != byte {
        lemma_first_match(children, byte, from + 1);
    }
}

/// An entry put behind the others is found for its byte where there was none
/// for it, and changes nothing for the other bytes.
proof fn lemma_child_added(children: Seq<(u8, usize)>, byte: u8, idx: usize, other: u8)
    requires
        child_of(children, byte) is None,
    ensures
        child_of(children.push((byte, idx)), byte) == Some(idx as int),
        other != byte ==> child_of(children.push((byte, idx)), other) == child_of(children, other),
{
    let longer = children.push((byte, idx));
    lemma_first_match(children, byte, 0);
    lemma_first_match(longer, byte, 0);
    lemma_first_match(children, other, 0);
    lemma_first_match(longer, other, 0);
    let t = first_match(longer, byte, 0)->Some_0;
    if first_match(longer, byte, 0) is None {
        assert(longer[children.len() as int].0 == byte);
    }
    if t < children.len() {
        assert(children[t].0 == byte);
    }
    if other != byte {
        match first_match(children, other, 0) {
            Some(a) => {
                assert(longer[a] == children[a]);
                match first_match(longer, other, 0) {
                    Some(b) => {
                        if b < a {
                            assert(children[b] == longer[b]);
                        } else if a < b {
                        }
                    },
                    None => {},
                }
            },
            None => {
                match first_match(longer, other, 0) {
                    Some(b) => {
                        if b < children.len() {
                            assert(children[b] == longer[b]);
                        }
                    },
                    None => {},
                }
            },
        }
    }
}

/// In a tree of the right shape, the way down leads to nodes of the tree.
proof fn lemma_descend_in_range(nodes: Seq<Node>, key: u64, depth: int)
    requires
        shaped(nodes),
        0 <= depth,
    ensures
        descend(nodes, key, depth) matches Some(n) ==> 0 <= n < nodes.len() && (depth > 0 ==> n
            > 0),
    decreases depth,
{
    if depth > 0 {
        lemma_descend_in_range(nodes, key, depth - 1);
        match descend(nodes, key, depth - 1) {
            Some(p) => {
                let byte = key_byte(key, depth - 1);
                lemma_first_match(nodes[p].children@, byte, 0);
                match first_match(nodes[p].children@, byte, 0) {
                    Some(t) => {
                        assert(p < (nodes[p].children@[t]).1 < nodes.len());
                    },
                    None => {},
                }
            },
            None => {},
        }
    }
}

/// Keys that lead to the same node have the same bytes on the way.
proof fn lemma_descend_injective(nodes: Seq<Node>, a: u64, b: u64, depth: int)
    requires
        shaped(nodes),
        0 <= depth,
        descend(nodes, a, depth) is Some,
        descend(nodes, a, depth) == descend(nodes, b, depth),
    ensures
        forall|e: int| 0 <= e < depth ==> key_byte(a, e) == key_byte(b, e),
    decreases depth,
{
    if depth > 0 {
        let pa = descend(nodes, a, depth - 1)->Some_0;
        let pb = descend(nodes, b, depth - 1)->Some_0;
        lemma_descend_in_range(nodes, a, depth - 1);
        lemma_descend_in_range(nodes, b, depth - 1);
        let ba = key_byte(a, depth - 1);
        let bb = key_byte(b, depth - 1);
        lemma_first_match(nodes[pa].children@, ba, 0);
        lemma_first_match(nodes[pb].children@, bb, 0);
        let ta = first_match(nodes[pa].children@, ba, 0)->Some_0;
        let tb = first_match(nodes[pb].children@, bb, 0)->Some_0;
        assert((nodes[pa].children@[ta]).1 == (nodes[pb].children@[tb]).1);
        assert(pa == pb && ta == tb);
        lemma_descend_injective(nodes, a, b, depth - 1);
    }
}

/// Of the keys with five bytes, at most one leads to a node.
proof fn lemma_one_key(nodes: Seq<Node>, a: u64, b: u64)
    requires
        shaped(nodes),
        a < KEY_LIMIT,
        b < KEY_LIMIT,
        descend(nodes, a, 5) is Some,
        descend(nodes, a, 5) == descend(nodes, b, 5),
    ensures
        a == b,
{
    lemma_descend_injective(nodes, a, b, 5);
    assert(key_byte(a, 0) == key_byte(b, 0));
    assert(key_byte(a, 1) == key_byte(b, 1));
    assert(key_byte(a, 2) == key_byte(b, 2));
    assert(key_byte(a, 3) == key_byte(b, 3));
    assert(key_byte(a, 4) == key_byte(b, 4));
    lemma_byte_fits(a, 32);
    lemma_byte_fits(a, 24);
    lemma_byte_fits(a, 16);
    lemma_byte_fits(a, 8);
    lemma_byte_fits(a, 0);
    lemma_byte_fits(b, 32);
    lemma_byte_fits(b, 24);
    lemma_byte_fits(b, 16);
    lemma_byte_fits(b, 8);
    lemma_byte_fits(b, 0);
    lemma_key_bytes(a, b);
}

/// The keys that a tree can hold are finitely many.
proof fn lemma_keys_finite(s: Set<u64>)
    requires
        forall|k: u64| s.contains(k) ==> k < KEY_LIMIT,
    ensures
        s.finite(),
{
    let all = vstd::set_lib::set_int_range(0, KEY_LIMIT as int);
    vstd::set_lib::lemma_int_range(0, KEY_LIMIT as int);
    let f = |i: int| i as u64;
    let image = all.map(f);
    all.lemma_map_finite(f);
    assert(s.subset_of(image)) by {
        assert forall|k: u64| s.contains(k) implies image.contains(k) by {
            assert(all.contains(k as int) && f(k as int) == k);
        }
    }
    vstd::set_lib::lemma_len_subset(s, image);
}

impl RadixTree {
    /// The nodes have the right shape, and the count is the number of keys.
    pub closed spec fn wf(&self) -> bool {
        &&& shaped(self.nodes@)
        &&& self@.finite()
        &&& self.len == self@.len()
    }

    /// The tree without a key.
    pub fn new() -> (r: RadixTree)
        ensures
            r.wf(),
            r@ == Set::<u64>::empty(),
    {
        let mut nodes: Vec<Node> = Vec::new();
        nodes.push(Node { children: Vec::new(), terminal: false });
        let r = RadixTree { len: 0, nodes };
        proof {
            assert forall|key: u64| !holds(r.nodes@, key) by {
                Self::lemma_no_way_down(r.nodes@, key, 5);
            }
            assert(r@ =~= Set::<u64>::empty());
        }
        r
    }

    /// From a root without entries no key leads anywhere.
    proof fn lemma_no_way_down(nodes: Seq<Node>, key: u64, depth: int)
        requires
            nodes.len() == 1,
            nodes[0].children@.len() == 0,
            1 <= depth,
        ensures
            descend(nodes, key, depth) is None,
        decreases depth,
    {
        if depth > 1 {
            Self::lemma_no_way_down(nodes, key, depth - 1);
        }
    }

    /// The number of keys.
    pub fn len(&self) -> (r: usize)
        requires
            self.wf(),
        ensures
            r == self@.len(),
    {
        self.len
    }

    /// The node to which `byte` leads from `node`, if there is one.
    fn get_child(&self, node: usize, byte: u8) -> (r: Option<usize>)
        requires
            node < self.nodes@.len(),
        ensures
            match r {
                Some(c) => child_of(self.nodes@[node as int].children@, byte) == Some(c as int),
                None => child_of(self.nodes@[node as int].children@, byte) is None,
            },
    {
        let children = &self.nodes[node].children;
        let mut t: usize = 0;
        proof {
            lemma_first_match(children@, byte, 0);
        }
        while t < children.len()
            invariant
                0 <= t <= children.len(),
                node < self.nodes@.len(),
                children@ == self.nodes@[node as int].children@,
                first_match(children@, byte, 0) == first_match(children@, byte, t as int),
            decreases children.len() - t,
        {
            if children[t].0 == byte {
                proof {
                    assert(first_match(children@, byte, t as int) == Some(t as int));
                }
                return Some(children[t].1);
            }
            proof {
                assert(first_match(children@, byte, t as int) == first_match(
                    children@,
                    byte,
                    t + 1,
                ));
            }
            t = t + 1;
        }
        proof {
            assert(first_match(children@, byte, t as int) is None);
        }
        None
    }

    /// The node to which `byte` leads from `node`; where there is none yet, a
    /// new node without entries is made for it. The tree holds the same keys
    /// as before.
    fn get_or_create_child(&mut self, node: usize, byte: u8) -> (r: usize)
        requires
            shaped(old(self).nodes@),
            node < old(self).nodes@.len(),
        ensures
            shaped(final(self).nodes@),
            final(self).len == old(self).len,
            final(self)@ == old(self)@,
            node < final(self).nodes@.len(),
            r < final(self).nodes@.len(),
            child_of(final(self).nodes@[node as int].children@, byte) == Some(r as int),
            forall|key: u64, depth: int|
                0 <= depth && #[trigger] descend(old(self).nodes@, key, depth) is Some ==> descend(
                    final(self).nodes@,
                    key,
                    depth,
                ) == descend(old(self).nodes@, key, depth),
    {
        if let Some(idx) = self.get_child(node, byte) {
            proof {
                let children = self.nodes@[node as int].children@;
                lemma_first_match(children, byte, 0);
                let t = first_match(children, byte, 0)->Some_0;
                assert((children[t]).1 < self.nodes@.len());
            }
            return idx;
        }
        let new_idx = self.nodes.len();
        self.nodes.push(Node { children: Vec::new(), terminal: false });
        let ghost mid = self.nodes@;
        self.nodes[node].children.push((byte, new_idx));
        proof {
            let before = old(self).nodes@;
            let after = self.nodes@;
            assert(after.len() == before.len() + 1);
            assert forall|i: int| 0 <= i < before.len() && i != node implies after[i].children@
                == before[i].children@ && after[i].terminal == before[i].terminal by {
                assert(mid[i] == before[i]);
            }
            assert(after[node as int].children@ == before[node as int].children@.push(
                (byte, new_idx),
            ));
            assert(after[node as int].terminal == before[node as int].terminal);
            assert(after[new_idx as int].children@.len() == 0);
            assert(!after[new_idx as int].terminal);
            Self::lemma_grown(before, after, node as int, byte, new_idx);
            assert(self@ =~= old(self)@);
        }
        new_idx
    }

    /// What a new node under `node` for `byte` does to the tree: the shape
    /// stays right, the ways down stay, and no key is held that was not.
    proof fn lemma_grown(before: Seq<Node>, after: Seq<Node>, node: int, byte: u8, fresh: usize)
        requires
            shaped(before),
            0 <= node < before.len(),
            fresh == before.len(),
            after.len() == before.len() + 1,
            child_of(before[node].children@, byte) is None,
            forall|i: int|
                0 <= i < before.len() && i != node ==> (#[trigger] after[i]).children@
                    == before[i].children@ && after[i].terminal == before[i].terminal,
            after[node].children@ == before[node].children@.push((byte, fresh)),
            after[node].terminal == before[node].terminal,
            after[before.len() as int].children@.len() == 0,
            !after[before.len() as int].terminal,
        ensures
            shaped(after),
            child_of(after[node].children@, byte) == Some(before.len() as int),
            forall|key: u64, depth: int|
                0 <= depth && #[trigger] descend(before, key, depth) is Some ==> descend(
                    after,
                    key,
                    depth,
                ) == descend(before, key, depth),
            forall|key: u64| holds(after, key) == holds(before, key),
    {
        lemma_child_added(before[node].children@, byte, fresh, byte);
        lemma_first_match(before[node].children@, byte, 0);
        assert forall|i: int, t: int, u: int|
            0 <= i < after.len() && 0 <= t < u < after[i].children@.len() implies (
        #[trigger] after[i].children@[t]).0 != (#[trigger] after[i].children@[u]).0 by {
            if i == node {
                assert(after[i].children@[t] == before[i].children@[t]);
                if u < before[node].children@.len() {
                    assert(after[i].children@[u] == before[i].children@[u]);
                } else {
                    assert(after[i].children@[u] == (byte, fresh));
                    assert(before[node].children@[t].0 != byte);
                }
            } else if i < before.len() {
                assert(after[i].children@[t] == before[i].children@[t]);
                assert(after[i].children@[u] == before[i].children@[u]);
            }
        }
        assert forall|i: int, t: int|
            0 <= i < after.len() && 0 <= t < after[i].children@.len() implies i < (
        #[trigger] after[i].children@[t]).1 < after.len() by {
            if i == node {
                if t < before[node].children@.len() {
                    assert(after[i].children@[t] == before[i].children@[t]);
                    assert(i < (before[i].children@[t]).1 < before.len());
                } else {
                    assert(after[i].children@[t] == (byte, fresh));
                }
            } else if i < before.len() {
                assert(after[i].children@[t] == before[i].children@[t]);
                assert(i < (before[i].children@[t]).1 < before.len());
            }
        }
        assert forall|i: int, t: int, j: int, u: int|
            0 <= i < after.len() && 0 <= t < after[i].children@.len() && 0 <= j < after.len() && 0
                <= u < after[j].children@.len() && (#[trigger] after[i].children@[t]).1 == (
            #[trigger] after[j].children@[u]).1 implies i == j && t == u by {
            let old_t = i != node || t < before[node].children@.len();
            let old_u = j != node || u < before[node].children@.len();
            if old_t {
                assert(after[i].children@[t] == before[i].children@[t]);
                assert((before[i].children@[t]).1 < before.len());
            } else {
                assert(after[i].children@[t] == (byte, fresh));
            }
            if old_u {
                assert(after[j].children@[u] == before[j].children@[u]);
                assert((before[j].children@[u]).1 < before.len());
            } else {
                assert(after[j].children@[u] == (byte, fresh));
            }
            if old_t && old_u {
                assert((before[i].children@[t]).1 == (before[j].children@[u]).1);
            }
        }
        assert forall|key: u64, depth: int| 0 <= depth implies match #[trigger] descend(
            before,
            key,
            depth,
        ) {
            Some(n) => descend(after, key, depth) == Some(n),
            None => descend(after, key, depth) is None || descend(after, key, depth) == Some(
                fresh as int,
            ),
        } by {
            Self::lemma_grown_descend(before, after, node, byte, fresh, key, depth);
        }
        assert forall|key: u64| holds(after, key) == holds(before, key) by {
            Self::lemma_grown_descend(before, after, node, byte, fresh, key, 5);
            lemma_descend_in_range(before, key, 5);
        }
    }

    proof fn lemma_grown_descend(
        before: Seq<Node>,
        after: Seq<Node>,
        node: int,
        byte: u8,
        fresh: usize,
        key: u64,
        depth: int,
    )
        requires
            shaped(before),
            0 <= node < before.len(),
            fresh == before.len(),
            after.len() == before.len() + 1,
            child_of(before[node].children@, byte) is None,
            forall|i: int|
                0 <= i < before.len() && i != node ==> (#[trigger] after[i]).children@
                    == before[i].children@ && after[i].terminal == before[i].terminal,
            after[node].children@ == before[node].children@.push((byte, fresh)),
            after[before.len() as int].children@.len() == 0,
            0 <= depth,
        ensures
            match descend(before, key, depth) {
                Some(n) => descend(after, key, depth) == Some(n),
                None => descend(after, key, depth) is None || descend(after, key, depth) == Some(
                    before.len() as int,
                ),
            },
        decreases depth,
    {
        if depth > 0 {
            Self::lemma_grown_descend(before, after, node, byte, fresh, key, depth - 1);
            lemma_descend_in_range(before, key, depth - 1);
            let b = key_byte(key, depth - 1);
            match descend(before, key, depth - 1) {
                Some(p) => {
                    assert(descend(after, key, depth - 1) == Some(p));
                    if p == node {
                        lemma_child_added(before[node].children@, byte, fresh, b);
                        if b == byte {
                            assert(descend(before, key, depth) is None);
                            assert(descend(after, key, depth) == Some(fresh as int));
                        } else {
                            assert(child_of(after[p].children@, b) == child_of(
                                before[p].children@,
                                b,
                            ));
                        }
                    } else {
                        assert(after[p].children@ == before[p].children@);
                    }
                },
                None => {
                    if descend(after, key, depth - 1) is Some {
                        lemma_first_match(after[fresh as int].children@, b, 0);
                        assert(child_of(after[fresh as int].children@, b) is None);
                    }
                },
            }
        }
    }

    /// Puts the compressed form of the board with the word `value` into the
    /// set, and says whether it was new.
    pub fn insert(&mut self, value: u64) -> (r: bool)
        requires
            old(self).wf(),
            old(self)@.len() < usize::MAX,
        ensures
            final(self).wf(),
            final(self)@ == old(self)@.insert(pack(value)),
            r == !old(self)@.contains(pack(value)),
    {
        let key = Board(value).to_compressed_repr();
        let mut node: usize = 0;
        let mut depth: usize = 0;
        while depth < 5
            invariant
                0 <= depth <= 5,
                key < KEY_LIMIT,
                shaped(self.nodes@),
                self.len == old(self).len,
                self@ == old(self)@,
                node < self.nodes@.len(),
                descend(self.nodes@, key, depth as int) == Some(node as int),
            decreases 5 - depth,
        {
            let shift: u64 = 32 - 8 * (depth as u64);
            proof {
                lemma_byte_fits(key, shift);
            }
            let byte = ((key >> shift) & 0xff) as u8;
            let ghost here = node;
            node = self.get_or_create_child(node, byte);
            depth = depth + 1;
            proof {
                assert(descend(self.nodes@, key, depth - 1) == Some(here as int));
            }
        }
        let was_new = !self.nodes[node].terminal;
        let ghost before = self.nodes@;
        self.nodes[node].terminal = true;
        proof {
            let after = self.nodes@;
            assert forall|i: int| 0 <= i < before.len() implies (#[trigger] after[i]).children@
                == before[i].children@ by {}
            Self::lemma_marked(before, after, node as int, key);
            assert(self@ =~= old(self)@.insert(key)) by {
                assert forall|k: u64| self@.contains(k) == old(self)@.insert(key).contains(k) by {
                    assert(holds(after, k) == (holds(before, k) || k == key));
                }
            }
            lemma_keys_finite(self@);
        }
        if was_new {
            self.len = self.len + 1;
        }
        was_new
    }

    /// What marking the node of a key does: the key is held, and nothing else
    /// changes.
    proof fn lemma_marked(before: Seq<Node>, after: Seq<Node>, node: int, key: u64)
        requires
            shaped(before),
            key < KEY_LIMIT,
            descend(before, key, 5) == Some(node),
            0 <= node < before.len(),
            after.len() == before.len(),
            forall|i: int|
                0 <= i < before.len() ==> (#[trigger] after[i]).children@ == before[i].children@,
            forall|i: int|
                0 <= i < before.len() && i != node ==> (#[trigger] after[i]).terminal
                    == before[i].terminal,
            after[node].terminal,
        ensures
            shaped(after),
            forall|k: u64| holds(after, k) == (holds(before, k) || k == key),
            holds(before, key) == before[node].terminal,
    {
        assert forall|i: int, t: int, u: int|
            0 <= i < after.len() && 0 <= t < u < after[i].children@.len() implies (
        #[trigger] after[i].children@[t]).0 != (#[trigger] after[i].children@[u]).0 by {
            assert(after[i].children@[t] == before[i].children@[t]);
            assert(after[i].children@[u] == before[i].children@[u]);
        }
        assert forall|i: int, t: int|
            0 <= i < after.len() && 0 <= t < after[i].children@.len() implies i < (
        #[trigger] after[i].children@[t]).1 < after.len() by {
            assert(after[i].children@[t] == before[i].children@[t]);
        }
        assert forall|i: int, t: int, j: int, u: int|
            0 <= i < after.len() && 0 <= t < after[i].children@.len() && 0 <= j < after.len() && 0
                <= u < after[j].children@.len() && (#[trigger] after[i].children@[t]).1 == (
            #[trigger] after[j].children@[u]).1 implies i == j && t == u by {
            assert(after[i].children@[t] == before[i].children@[t]);
            assert(after[j].children@[u] == before[j].children@[u]);
        }
        assert forall|k: u64| holds(after, k) == (holds(before, k) || k == key) by {
            Self::lemma_same_ways(before, after, k, 5);
            lemma_descend_in_range(before, k, 5);
            if k < KEY_LIMIT && descend(before, k, 5) == Some(node) {
                lemma_one_key(before, k, key);
            }
        }
    }

    /// Trees with the same entries have the same ways down.
    proof fn lemma_same_ways(before: Seq<Node>, after: Seq<Node>, key: u64, depth: int)
        requires
            after.len() == before.len(),
            forall|i: int|
                0 <= i < before.len() ==> (#[trigger] after[i]).children@ == before[i].children@,
            0 <= depth,
        ensures
            descend(after, key, depth) == descend(before, key, depth),
        decreases depth,
    {
        if depth > 0 {
            Self::lemma_same_ways(before, after, key, depth - 1);
        }
    }

    /// Whether the set holds the compressed form of the board with the word
    /// `value`.
    pub fn contains(&self, value: u64) -> (r: bool)
        requires
            self.wf(),
        ensures
            r == self@.contains(pack(value)),
    {
        let key = Board(value).to_compressed_repr();
        let mut node: usize = 0;
        let mut depth: usize = 0;
        while depth < 5
            invariant
                0 <= depth <= 5,
                key < KEY_LIMIT,
                key == pack(value),
                shaped(self.nodes@),
                node < self.nodes@.len(),
                descend(self.nodes@, key, depth as int) == Some(node as int),
            decreases 5 - depth,
        {
            let shift: u64 = 32 - 8 * (depth as u64);
            proof {
                lemma_byte_fits(key, shift);
            }
            let byte = ((key >> shift) & 0xff) as u8;
            match self.get_child(node, byte) {
                Some(next) => {
                    proof {
                        lemma_descend_in_range(self.nodes@, key, depth + 1);
                    }
                    node = next;
                },
                None => {
                    proof {
                        assert(descend(self.nodes@, key, depth + 1) is None);
                        Self::lemma_dead_end(self.nodes@, key, depth + 1, 5);
                        assert(!holds(self.nodes@, key));
                        assert(!self@.contains(key));
                        assert(key == pack(value));
                    }
                    return false;
                },
            }
            depth = depth + 1;
        }
        self.nodes[node].terminal
    }

    /// Where the way down ends, it does not go on.
    proof fn lemma_dead_end(nodes: Seq<Node>, key: u64, at: int, depth: int)
        requires
            0 <= at <= depth,
            descend(nodes, key, at) is None,
        ensures
            descend(nodes, key, depth) is None,
        decreases depth - at,
    {
        if at < depth {
            Self::lemma_dead_end(nodes, key, at, depth - 1);
        }
    }
}

/// The key lies under the node that `prefix` leads to at depth `depth`: it
/// has five bytes, and the first `depth` of them are `prefix`.
pub open spec fn under(prefix: u64, depth: int, key: u64) -> bool {
    key < KEY_LIMIT && key >> ((8 * (5 - depth)) as u64) == prefix
}

/// The prefix with one more byte.
pub open spec fn longer_prefix(prefix: u64, byte: u8) -> u64 {
    (prefix << 8) | (byte as u64)
}

/// The keys that the tree holds under a node, entry by entry from the
/// `t`-th entry of the node on, and for each entry first what lies under it.
spec fn keys_from(nodes: Seq<Node>, node: int, depth: int, prefix: u64, t: int) -> Seq<
    u64,
>
    decreases 5 - depth, nodes[node].children@.len() - t,
{
    if node < 0 || node >= nodes.len() || depth < 0 || t < 0 {
        Seq::empty()
    } else if depth >= 5 {
        if nodes[node].terminal {
            seq![prefix]
        } else {
            Seq::empty()
        }
    } else if t >= nodes[node].children@.len() {
        Seq::empty()
    } else {
        let entry = nodes[node].children@[t];
        keys_from(nodes, entry.1 as int, depth + 1, longer_prefix(prefix, entry.0), 0) + keys_from(
            nodes,
            node,
            depth,
            prefix,
            t + 1,
        )
    }
}

/// The words of the boards that keys stand for.
pub open spec fn words_of(keys: Seq<u64>) -> Seq<u64> {
    keys.map_values(|k: u64| unpack(k))
}

proof fn lemma_prefix_step(k: u64, d: u64, p: u64, b: u64)
    by (bit_vector)
    requires
        d < 5,
        k < KEY_LIMIT,
        b <= 0xff,
        p >> ((8 * d) as u64) == 0,
    ensures
        (k >> ((8 * (5 - d)) as u64) == p && (k >> ((32 - 8 * d) as u64)) & 0xff == b) <==> k >> ((
        8 * (5 - (d + 1))) as u64) == (p << 8) | b,
        ((p << 8) | b) >> ((8 * (d + 1)) as u64) == 0,
        d == 4 ==> (p << 8) | b < KEY_LIMIT,
{
}

proof fn lemma_prefix_ends(k: u64, p: u64)
    by (bit_vector)
    ensures
        k >> 0 == k,
        k >> 40 == 0 <==> k < KEY_LIMIT,
{
}

/// In a node of a tree of the right shape, each entry is the first for its
/// byte.
proof fn lemma_entry_found(nodes: Seq<Node>, node: int, t: int)
    requires
        shaped(nodes),
        0 <= node < nodes.len(),
        0 <= t < nodes[node].children@.len(),
    ensures
        child_of(nodes[node].children@, nodes[node].children@[t].0) == Some(
            nodes[node].children@[t].1 as int,
        ),
        node < nodes[node].children@[t].1 < nodes.len(),
{
    let children = nodes[node].children@;
    lemma_first_match(children, children[t].0, 0);
    let u = first_match(children, children[t].0, 0)->Some_0;
    if first_match(children, children[t].0, 0) is None {
        assert(children[t].0 != children[t].0);
    }
    if u < t {
        assert(children[u].0 != children[t].0);
    }
    assert(node < (nodes[node].children@[t]).1 < nodes.len());
}

/// A key that the tree holds has, at each node on its way, an entry for its
/// next byte.
proof fn lemma_way_goes_on(nodes: Seq<Node>, key: u64, depth: int) -> (t: int)
    requires
        shaped(nodes),
        0 <= depth < 5,
        holds(nodes, key),
    ensures
        descend(nodes, key, depth) matches Some(n) && 0 <= n < nodes.len() && 0 <= t
            < nodes[n].children@.len() && nodes[n].children@[t].0 == key_byte(key, depth)
            && descend(nodes, key, depth + 1) == Some(nodes[n].children@[t].1 as int),
{
    if descend(nodes, key, depth + 1) is None {
        RadixTree::lemma_dead_end(nodes, key, depth + 1, 5);
    }
    lemma_descend_in_range(nodes, key, depth);
    let n = descend(nodes, key, depth)->Some_0;
    lemma_first_match(nodes[n].children@, key_byte(key, depth), 0);
    first_match(nodes[n].children@, key_byte(key, depth), 0)->Some_0
}

/// What the list of the keys under a node holds: the keys under the node that
/// the tree holds and that go on by one of the entries from the `t`-th on. No
/// key is listed twice.
proof fn lemma_keys_from(nodes: Seq<Node>, node: int, depth: int, prefix: u64, t: int)
    requires
        shaped(nodes),
        0 <= node < nodes.len(),
        0 <= depth <= 5,
        0 <= t,
        prefix >> ((8 * depth) as u64) == 0,
        forall|k: u64| #[trigger] under(prefix, depth, k) ==> descend(nodes, k, depth) == Some(node),
    ensures
        keys_from(nodes, node, depth, prefix, t).no_duplicates(),
        forall|key: u64| #[trigger]
            keys_from(nodes, node, depth, prefix, t).contains(key) <==> under(prefix, depth, key)
                && holds(nodes, key) && (depth < 5 ==> exists|u: int|
                t <= u < nodes[node].children@.len() && #[trigger] nodes[node].children@[u].0
                    == key_byte(key, depth)),
    decreases 5 - depth, nodes[node].children@.len() - t,
{
    let list = keys_from(nodes, node, depth, prefix, t);
    let children = nodes[node].children@;
    lemma_prefix_ends(prefix, 0);
    if depth >= 5 {
        assert forall|key: u64| #[trigger] list.contains(key) <==> under(prefix, depth, key)
            && holds(nodes, key) by {
            lemma_prefix_ends(key, 0);
            if nodes[node].terminal {
                assert(list[0] == prefix);
            }
        }
    } else if t >= children.len() {
    } else {
        let entry = children[t];
        let child = entry.1 as int;
        let longer = longer_prefix(prefix, entry.0);
        let first = keys_from(nodes, child, depth + 1, longer, 0);
        let rest = keys_from(nodes, node, depth, prefix, t + 1);
        lemma_entry_found(nodes, node, t);
        lemma_prefix_step(0, depth as u64, prefix, entry.0 as u64);
        let next = depth + 1;
        assert forall|k: u64| #[trigger] under(longer, next, k) implies descend(nodes, k, next)
            == Some(child) by {
            lemma_prefix_step(k, depth as u64, prefix, entry.0 as u64);
            lemma_byte_fits(k, (32 - 8 * depth) as u64);
            assert(under(prefix, depth, k));
            assert(key_byte(k, depth) == entry.0);
        }
        lemma_keys_from(nodes, child, next, longer, 0);
        lemma_keys_from(nodes, node, depth, prefix, t + 1);
        assert forall|key: u64| #[trigger] list.contains(key) <==> under(prefix, depth, key)
            && holds(nodes, key) && exists|u: int|
            t <= u < children.len() && #[trigger] children[u].0 == key_byte(key, depth) by {
            crate::moves::lemma_concat_contains(first, rest, key);
            lemma_byte_fits(key, (32 - 8 * depth) as u64);
            if key < KEY_LIMIT {
                lemma_prefix_step(key, depth as u64, prefix, entry.0 as u64);
            }
            if first.contains(key) {
                assert(children[t].0 == key_byte(key, depth));
            }
            if rest.contains(key) {
                let u = choose|u: int|
                    t + 1 <= u < children.len() && #[trigger] children[u].0 == key_byte(
                        key,
                        depth,
                    );
                assert(children[u].0 == key_byte(key, depth));
            }
            if under(prefix, depth, key) && holds(nodes, key) && exists|u: int|
                t <= u < children.len() && #[trigger] children[u].0 == key_byte(key, depth) {
                let u = choose|u: int|
                    t <= u < children.len() && #[trigger] children[u].0 == key_byte(key, depth);
                if u == t {
                    assert((key >> ((32 - 8 * depth) as u64)) & 0xff == entry.0 as u64);
                    assert(under(longer, depth + 1, key));
                    if depth + 1 < 5 {
                        let w = lemma_way_goes_on(nodes, key, depth + 1);
                        assert(nodes[child].children@[w].0 == key_byte(key, depth + 1));
                    }
                    assert(first.contains(key));
                } else {
                    assert(children[u].0 == key_byte(key, depth));
                    assert(rest.contains(key));
                }
            }
        }
        assert forall|i: int, j: int| 0 <= i < first.len() && 0 <= j < rest.len() implies first[i]
            != rest[j] by {
            assert(first.contains(first[i]));
            assert(rest.contains(rest[j]));
            if first[i] == rest[j] {
                let key = first[i];
                lemma_prefix_step(key, depth as u64, prefix, entry.0 as u64);
                lemma_byte_fits(key, (32 - 8 * depth) as u64);
                let u = choose|u: int|
                    t + 1 <= u < children.len() && #[trigger] children[u].0 == key_byte(key, depth);
                assert(children[t].0 != children[u].0);
            }
        }
        vstd::seq_lib::lemma_no_dup_in_concat(first, rest);
    }
}

impl RadixTree {
    /// The keys that the tree holds, in the order in which they are found:
    /// from the root down, by the entries in the order in which they came.
    pub closed spec fn spec_keys(&self) -> Seq<u64> {
        keys_from(self.nodes@, 0, 0, 0, 0)
    }

    /// The list of the keys holds each key of the tree once.
    pub proof fn lemma_keys(&self)
        requires
            self.wf(),
        ensures
            self.spec_keys().no_duplicates(),
            self.spec_keys().to_set() == self@,
    {
        let nodes = self.nodes@;
        lemma_prefix_ends(0, 0);
        assert(0u64 >> 0u64 == 0);
        assert forall|k: u64| #[trigger] under(0, 0, k) implies descend(nodes, k, 0) == Some(
            0int,
        ) by {}
        lemma_keys_from(nodes, 0, 0, 0, 0);
        assert forall|key: u64| self.spec_keys().contains(key) <==> self@.contains(key) by {
            lemma_prefix_ends(key, 0);
            if holds(nodes, key) {
                let t = lemma_way_goes_on(nodes, key, 0);
                assert(nodes[0].children@[t].0 == key_byte(key, 0));
            }
        }
        assert(self.spec_keys().to_set() =~= self@);
    }

    /// Puts the words of the boards held under a node behind what the vector
    /// holds.
    fn collect(&self, node: usize, depth: usize, prefix: u64, out: &mut Vec<u64>)
        requires
            shaped(self.nodes@),
            node < self.nodes@.len(),
            depth <= 5,
        ensures
            final(out)@ == old(out)@ + words_of(
                keys_from(self.nodes@, node as int, depth as int, prefix, 0),
            ),
        decreases 5 - depth,
    {
        if depth == 5 {
            if self.nodes[node].terminal {
                out.push(Board::from_compressed_repr(prefix).0);
            }
            proof {
                assert(out@ =~= old(out)@ + words_of(
                    keys_from(self.nodes@, node as int, depth as int, prefix, 0),
                ));
            }
            return ;
        }
        let n = self.nodes[node].children.len();
        let mut t: usize = 0;
        proof {
            assert(out@ =~= old(out)@ + Seq::<u64>::empty());
        }
        let ghost all = words_of(keys_from(self.nodes@, node as int, depth as int, prefix, 0));
        while t < n
            invariant
                0 <= t <= n,
                n == self.nodes@[node as int].children@.len(),
                shaped(self.nodes@),
                node < self.nodes@.len(),
                depth < 5,
                all == words_of(keys_from(self.nodes@, node as int, depth as int, prefix, 0)),
                out@ + words_of(keys_from(self.nodes@, node as int, depth as int, prefix, t as int))
                    == old(out)@ + all,
            decreases n - t,
        {
            let (byte, child) = self.nodes[node].children[t];
            proof {
                lemma_entry_found(self.nodes@, node as int, t as int);
            }
            let ghost before = out@;
            let ghost under_child = keys_from(
                self.nodes@,
                child as int,
                depth + 1,
                longer_prefix(prefix, byte),
                0,
            );
            let ghost rest = keys_from(self.nodes@, node as int, depth as int, prefix, t + 1);
            self.collect(child, depth + 1, (prefix << 8) | (byte as u64), out);
            proof {
                assert(words_of(under_child + rest) =~= words_of(under_child) + words_of(rest));
                assert(out@ + words_of(rest) =~= before + words_of(under_child + rest));
            }
            t = t + 1;
        }
        proof {
            assert(words_of(keys_from(self.nodes@, node as int, depth as int, prefix, n as int))
                =~= Seq::<u64>::empty());
            assert(out@ =~= old(out)@ + all);
        }
    }

    /// The words of the boards that the tree holds, in the order of
    /// `spec_keys`.
    pub fn values(&self) -> (r: Vec<u64>)
        requires
            self.wf(),
        ensures
            r@ == words_of(self.spec_keys()),
            r@.len() == self@.len(),
    {
        let mut out: Vec<u64> = Vec::new();
        self.collect(0, 0, 0, &mut out);
        proof {
            assert(out@ =~= words_of(self.spec_keys()));
            self.lemma_keys();
            self.spec_keys().unique_seq_to_set();
        }
        out
    }
}

} // verus!
