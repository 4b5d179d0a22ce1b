//! A tree structure for matching strings against many glob patterns.
//!
//! Each node of the tree stands for one character of a pattern, and holds a reference
//! count. The asterisk `*` matches any run of characters, the empty one included; the
//! question mark `?` matches exactly one character. A string is matched when some stored
//! pattern matches it.
use std::collections::BTreeMap;
use vstd::prelude::*;
use vstd::std_specs::iter::IteratorSpec;
use vstd::std_specs::cmp::OrdSpec;
use vstd::string::StringSliceAdditionalSpecFns;
use crate::pattern_counts::{
    counts_after_add, counts_after_take, counts_bounded, lemma_add_bounded, lemma_add_counts,
    lemma_add_is_insert_pub, lemma_ends_iff_count, lemma_remove_bounded, lemma_take_bounded,
    lemma_take_counts, lemma_take_deletes, no_excess_all, pattern_count,
};

verus! {

broadcast use vstd::utf8::char_u32_cast;

/// A node of a pattern tree: a token, the children keyed by the code of their token, and
/// a reference count.
pub struct Node {
    token: Option<char>,
    children: BTreeMap<u32, Node>,
    count: u64,
}

/// The sum of the reference counts of the nodes of a child map.
pub closed spec fn sum_counts(m: Map<u32, Node>) -> nat {
    m.dom().fold(0nat, count_adder(m))
}

pub closed spec fn count_adder(m: Map<u32, Node>) -> spec_fn(nat, u32) -> nat {
    |acc: nat, k: u32| (acc + m[k].count) as nat
}

proof fn lemma_adder_commutative(m: Map<u32, Node>)
    ensures
        vstd::set::fold::is_fun_commutative(count_adder(m)),
{
}

/// Folding the adders of two maps that agree on the counts of a set gives the same sum.
proof fn lemma_fold_congruent(m1: Map<u32, Node>, m2: Map<u32, Node>, s: Set<u32>)
    requires
        s.finite(),
        forall|k: u32| s.contains(k) ==> m1[k].count == m2[k].count,
    ensures
        s.fold(0nat, count_adder(m1)) == s.fold(0nat, count_adder(m2)),
    decreases s.len(),
{
    lemma_adder_commutative(m1);
    lemma_adder_commutative(m2);
    if s.len() == 0 {
        assert(s =~= Set::empty());
        vstd::set::fold::lemma_fold_empty(0nat, count_adder(m1));
        vstd::set::fold::lemma_fold_empty(0nat, count_adder(m2));
    } else {
        let k = s.choose();
        assert(s.contains(k));
        let r = s.remove(k);
        assert(r.insert(k) =~= s);
        lemma_fold_congruent(m1, m2, r);
        vstd::set::fold::lemma_fold_insert(r, 0nat, count_adder(m1), k);
        vstd::set::fold::lemma_fold_insert(r, 0nat, count_adder(m2), k);
    }
}

/// Taking one key out of a child map takes its count out of the sum.
proof fn lemma_sum_remove(m: Map<u32, Node>, k: u32)
    requires
        m.dom().finite(),
        m.dom().contains(k),
    ensures
        sum_counts(m) == sum_counts(m.remove(k)) + m[k].count,
{
    let r = m.dom().remove(k);
    assert(r.insert(k) =~= m.dom());
    assert(m.remove(k).dom() =~= r);
    lemma_adder_commutative(m);
    vstd::set::fold::lemma_fold_insert(r, 0nat, count_adder(m), k);
    lemma_fold_congruent(m, m.remove(k), r);
}

/// Putting a node at a key of a child map replaces the count at that key in the sum.
proof fn lemma_sum_insert(m: Map<u32, Node>, k: u32, n: Node)
    requires
        m.dom().finite(),
    ensures
        sum_counts(m.insert(k, n)) + (if m.dom().contains(k) { m[k].count as nat } else { 0nat })
            == sum_counts(m) + n.count,
{
    let m2 = m.insert(k, n);
    lemma_sum_remove(m2, k);
    if m.dom().contains(k) {
        lemma_sum_remove(m, k);
        assert(m2.remove(k) =~= m.remove(k));
    } else {
        assert(m2.remove(k) =~= m);
    }
}

proof fn lemma_sum_empty(m: Map<u32, Node>)
    requires
        m.dom() =~= Set::empty(),
    ensures
        sum_counts(m) == 0,
{
    vstd::set::fold::lemma_fold_empty(0nat, count_adder(m));
}

impl Node {
    /// The node reached from this one by following the characters of `w`.
    pub closed spec fn lookup(self, w: Seq<char>) -> Option<Node>
        decreases w.len(),
    {
        if w.len() == 0 {
            Some(self)
        } else if self.children@.contains_key(w[0] as u32) {
            self.children@[w[0] as u32].lookup(w.drop_first())
        } else {
            None
        }
    }

    /// The reference counts of the tree below this node, keyed by path.
    pub closed spec fn counts(self) -> Map<Seq<char>, nat> {
        Map::new(|w: Seq<char>| self.lookup(w) is Some, |w: Seq<char>| self.lookup(w)->0.count as nat)
    }

    /// The token stored in this node.
    pub closed spec fn spec_token(self) -> Option<char> {
        self.token
    }

    /// The reference count of this node.
    pub closed spec fn spec_count(self) -> nat {
        self.count as nat
    }

    /// The sum of the reference counts of the children of this node.
    pub closed spec fn child_total(self) -> nat {
        sum_counts(self.children@)
    }

    /// The node at path `w` ends a pattern: its children are referenced fewer times than itself.
    pub closed spec fn terminal_at(self, w: Seq<char>) -> bool {
        self.lookup(w) matches Some(n) && n.child_total() < n.count
    }

    /// Every child is stored under the code of its own token.
    pub closed spec fn keyed_by_token(self) -> bool {
        forall|k: u32| #[trigger] self.children@.contains_key(k) ==> (self.children@[k].token matches Some(c) && c as u32 == k)
    }

    /// Every node below this one is keyed by its token, and no count or child total
    /// overflows a `u64` when raised by `room`.
    pub closed spec fn wf_room(self, room: nat) -> bool {
        forall|w: Seq<char>| #[trigger] self.lookup(w) is Some ==> self.lookup(w)->0.ok_with(room)
    }

    /// This node is keyed by token, and its count and child total can grow by `room`.
    pub closed spec fn ok_with(self, room: nat) -> bool {
        &&& self.keyed_by_token()
        &&& self.count + room <= u64::MAX
        &&& self.child_total() + room <= u64::MAX
    }

    /// Every node strictly below this one is referenced at least once.
    pub closed spec fn positive_below(self) -> bool {
        forall|w: Seq<char>| #[trigger] self.lookup(w) is Some && w.len() > 0 ==> self.lookup(w)->0.count >= 1
    }

    /// The tree below this node is well formed.
    pub open spec fn wf(self) -> bool {
        self.wf_room(0) && self.positive_below()
    }
}


/// The sum of the counts of the first `i` keys of `ks`.
pub closed spec fn partial_sum(m: Map<u32, Node>, ks: Seq<u32>, i: int) -> nat {
    ks.take(i).to_set().fold(0nat, count_adder(m))
}

proof fn lemma_partial_step(m: Map<u32, Node>, ks: Seq<u32>, i: int)
    requires
        ks.no_duplicates(),
        0 <= i < ks.len(),
    ensures
        partial_sum(m, ks, i + 1) == partial_sum(m, ks, i) + m[ks[i]].count,
{
    let s = ks.take(i).to_set();
    assert(ks.take(i + 1).to_set() =~= s.insert(ks[i])) by {
        assert forall|x: u32| ks.take(i + 1).to_set().contains(x) <==> s.insert(ks[i]).contains(x) by {
            if ks.take(i + 1).to_set().contains(x) {
                let j = choose|j: int| 0 <= j < ks.take(i + 1).len() && #[trigger] ks.take(i + 1)[j] == x;
                if j < i {
                    assert(ks.take(i)[j] == x);
                }
            }
            if s.contains(x) {
                let j = choose|j: int| 0 <= j < ks.take(i).len() && #[trigger] ks.take(i)[j] == x;
                assert(ks.take(i + 1)[j] == x);
            }
            if x == ks[i] {
                assert(ks.take(i + 1)[i] == x);
            }
        }
    }
    assert(!s.contains(ks[i])) by {
        if s.contains(ks[i]) {
            let j = choose|j: int| 0 <= j < ks.take(i).len() && #[trigger] ks.take(i)[j] == ks[i];
            assert(ks[j] == ks[i]);
        }
    }
    vstd::seq_lib::seq_to_set_is_finite(ks.take(i));
    lemma_adder_commutative(m);
    vstd::set::fold::lemma_fold_insert(s, 0nat, count_adder(m), ks[i]);
}

proof fn lemma_partial_mono(m: Map<u32, Node>, ks: Seq<u32>, i: int)
    requires
        ks.no_duplicates(),
        0 <= i <= ks.len(),
    ensures
        partial_sum(m, ks, i) <= partial_sum(m, ks, ks.len() as int),
    decreases ks.len() - i,
{
    if i < ks.len() {
        lemma_partial_step(m, ks, i);
        lemma_partial_mono(m, ks, i + 1);
    }
}

proof fn lemma_partial_full(m: Map<u32, Node>, ks: Seq<u32>)
    requires
        ks.to_set() == m.dom(),
    ensures
        partial_sum(m, ks, ks.len() as int) == sum_counts(m),
{
    assert(ks.take(ks.len() as int) =~= ks);
}

impl Node {
    /// A new node holding `token`, referenced once, without children.
    pub fn new(token: Option<char>) -> (node: Node)
        ensures
            node.spec_token() == token,
            node.counts() == Map::<Seq<char>, nat>::empty().insert(Seq::empty(), 1),
            node.wf(),
            node.child_total() == 0,
            node.room_for(2),
            node.spec_count() == 1,
    {
        let node = Node { token, children: BTreeMap::new(), count: 1 };
        proof {
            lemma_sum_empty(node.children@);
            assert forall|w: Seq<char>| #[trigger] node.lookup(w) is Some implies node.lookup(w) == Some(node) && w.len() == 0 by {}
            assert(node.lookup(Seq::empty()) == Some(node));
            assert forall|w: Seq<char>| #[trigger] node.counts().contains_key(w) <==> w == Seq::<char>::empty() by {
                if w.len() == 0 {
                    assert(w =~= Seq::<char>::empty());
                }
            }
            assert(node.counts() =~= Map::<Seq<char>, nat>::empty().insert(Seq::empty(), 1));
        }
        node
    }

    /// The cumulative number of references to the children of this node.
    pub fn child_count(&self) -> (r: u64)
        requires
            self.child_total() <= u64::MAX,
        ensures
            r == self.child_total(),
    {
        let ghost m = self.children@;
        let it = self.children.values();
        let ghost ks: Seq<u32> = choose|key_seq: Seq<u32>|
            {
                &&& vstd::std_specs::btree::increasing_seq(key_seq)
                &&& key_seq.to_set() == m.dom()
                &&& key_seq.no_duplicates()
                &&& it.remaining() == key_seq.map(|i: int, k: u32| &m[k])
            };
        proof {
            lemma_partial_full(m, ks);
            assert(ks.take(0) =~= Seq::<u32>::empty());
            assert(ks.take(0).to_set() =~= Set::<u32>::empty());
            vstd::set::fold::lemma_fold_empty(0nat, count_adder(m));
        }
        let mut total: u64 = 0;
        for child in iter: it
            invariant
                iter.seq() == ks.map(|i: int, k: u32| &m[k]),
                ks.no_duplicates(),
                ks.to_set() == m.dom(),
                m == self.children@,
                total == partial_sum(m, ks, iter.index()),
                partial_sum(m, ks, ks.len() as int) == sum_counts(m),
                sum_counts(m) <= u64::MAX,
        {
            proof {
                lemma_partial_step(m, ks, iter.index());
                lemma_partial_mono(m, ks, iter.index() + 1);
            }
            total = total + child.count;
        }
        total
    }

    /// Returns true if this node terminates a pattern: its children are referenced fewer
    /// times than itself.
    pub fn is_terminal(&self) -> (r: bool)
        requires
            self.child_total() <= u64::MAX,
        ensures
            r == (self.child_total() < self.spec_count()),
    {
        self.child_count() < self.count
    }
}


/// The counts after a pattern is added along path `p`: every nonempty prefix of `p` gains a
/// reference (nodes that did not exist are created with one).
pub open spec fn counts_after_insert(m: Map<Seq<char>, nat>, p: Seq<char>) -> Map<Seq<char>, nat> {
    Map::new(
        |w: Seq<char>| m.contains_key(w) || w.is_prefix_of(p),
        |w: Seq<char>|
            (if m.contains_key(w) { m[w] } else { 0nat }) + (if w.len() > 0 && w.is_prefix_of(p) { 1nat } else { 0nat }),
    )
}

/// Distinct characters have distinct keys.
pub proof fn lemma_char_key_injective(a: char, b: char)
    ensures
        (a as u32 == b as u32) == (a == b),
{
    vstd::utf8::char_u32_cast(a, a as u32);
    vstd::utf8::char_u32_cast(b, b as u32);
}

proof fn lemma_lookup_replace_child(old: Node, new: Node, c: char, ch: Node, w: Seq<char>)
    requires
        new.children@ == old.children@.insert(c as u32, ch),
    ensures
        w.len() == 0 ==> new.lookup(w) == Some(new),
        w.len() > 0 && w[0] == c ==> new.lookup(w) == ch.lookup(w.drop_first()),
        w.len() > 0 && w[0] != c ==> new.lookup(w) == old.lookup(w),
{
    if w.len() > 0 {
        lemma_char_key_injective(w[0], c);
    }
}

proof fn lemma_lookup_same_children(old: Node, new: Node, w: Seq<char>)
    requires
        new.children@ == old.children@,
    ensures
        w.len() > 0 ==> new.lookup(w) == old.lookup(w),
        new.lookup(Seq::empty()) == Some(new),
{
}

/// The counts below the child at `c` of a node, as seen from that child.
pub open spec fn counts_below(m: Map<Seq<char>, nat>, c: char) -> Map<Seq<char>, nat> {
    Map::new(|v: Seq<char>| m.contains_key(seq![c] + v), |v: Seq<char>| m[seq![c] + v])
}

/// The child of `pre` at `c`, with one more reference (or a new node when there is none),
/// has the counts below `c` raised by one at its own path.
proof fn lemma_bumped_child_counts(pre: Node, c: char, ch_pre: Node)
    requires
        pre.children@.contains_key(c as u32) ==> (ch_pre.children@ == pre.children@[c as u32].children@
            && ch_pre.count == pre.children@[c as u32].count + 1),
        !pre.children@.contains_key(c as u32) ==> ch_pre.counts() == Map::<Seq<char>, nat>::empty().insert(Seq::empty(), 1),
    ensures
        forall|v: Seq<char>| #[trigger] ch_pre.counts().contains_key(v) <==> (counts_below(pre.counts(), c).contains_key(v) || v.len() == 0),
        forall|v: Seq<char>| #[trigger] ch_pre.counts().contains_key(v) ==> ch_pre.counts()[v] == (if counts_below(pre.counts(), c).contains_key(v) { counts_below(pre.counts(), c)[v] } else { 0nat }) + (if v.len() == 0 { 1nat } else { 0nat }),
{
    let m = pre.counts();
    let key = c as u32;
    assert forall|v: Seq<char>| #[trigger] pre.lookup(seq![c] + v) == (if pre.children@.contains_key(key) { pre.children@[key].lookup(v) } else { None }) by {
        assert((seq![c] + v).drop_first() =~= v);
        assert((seq![c] + v)[0] == c);
    }
    if pre.children@.contains_key(key) {
        let existing = pre.children@[key];
        assert forall|v: Seq<char>| #[trigger] ch_pre.lookup(v) == (if v.len() == 0 { Some(ch_pre) } else { existing.lookup(v) }) by {
            lemma_lookup_same_children(existing, ch_pre, v);
        }
        assert(existing.lookup(Seq::<char>::empty()) == Some(existing));
        assert forall|v: Seq<char>| #[trigger] ch_pre.counts().contains_key(v) <==> (counts_below(m, c).contains_key(v) || v.len() == 0) by {
            if v.len() == 0 {
                assert(v =~= Seq::<char>::empty());
            }
            assert(pre.lookup(seq![c] + v) == existing.lookup(v));
        }
        assert forall|v: Seq<char>| #[trigger] ch_pre.counts().contains_key(v) implies ch_pre.counts()[v] == (if counts_below(m, c).contains_key(v) { counts_below(m, c)[v] } else { 0nat }) + (if v.len() == 0 { 1nat } else { 0nat }) by {
            if v.len() == 0 {
                assert(v =~= Seq::<char>::empty());
            }
            assert(pre.lookup(seq![c] + v) == existing.lookup(v));
        }
    } else {
        assert forall|v: Seq<char>| #[trigger] ch_pre.counts().contains_key(v) <==> (counts_below(m, c).contains_key(v) || v.len() == 0) by {
            assert(pre.lookup(seq![c] + v) is None);
            if v.len() == 0 {
                assert(v =~= Seq::<char>::empty());
            }
        }
    }
}

/// Replacing the child at `c` by one whose counts are those below `c` after inserting the
/// rest of `p` yields the counts after inserting `p`.
proof fn lemma_graft_insert_counts(pre: Node, post: Node, c: char, ch_pre: Node, ch_new: Node, p: Seq<char>)
    requires
        post.children@ == pre.children@.insert(c as u32, ch_new),
        post.count == pre.count,
        p.len() > 0,
        p[0] == c,
        ch_new.counts() == counts_after_insert(ch_pre.counts(), p.drop_first()),
        forall|v: Seq<char>| #[trigger] ch_pre.counts().contains_key(v) <==> (counts_below(pre.counts(), c).contains_key(v) || v.len() == 0),
        forall|v: Seq<char>| #[trigger] ch_pre.counts().contains_key(v) ==> ch_pre.counts()[v] == (if counts_below(pre.counts(), c).contains_key(v) { counts_below(pre.counts(), c)[v] } else { 0nat }) + (if v.len() == 0 { 1nat } else { 0nat }),
    ensures
        post.counts() == counts_after_insert(pre.counts(), p),
{
    let m = pre.counts();
    let p2 = p.drop_first();
    let target = counts_after_insert(m, p);
    assert forall|w: Seq<char>| #[trigger] post.counts().contains_key(w) == target.contains_key(w) && (post.counts().contains_key(w) ==> post.counts()[w] == target[w]) by {
        lemma_lookup_replace_child(pre, post, c, ch_new, w);
        if w.len() == 0 {
            assert(w =~= Seq::<char>::empty());
            assert(pre.lookup(w) == Some(pre));
            assert(w.is_prefix_of(p));
            assert(post.counts().contains_key(w) == target.contains_key(w));
            assert(post.counts()[w] == target[w]);
        } else if w[0] == c {
            let v = w.drop_first();
            assert(seq![c] + v =~= w);
            assert(w.is_prefix_of(p) <==> v.is_prefix_of(p2)) by {
                if w.is_prefix_of(p) {
                    assert(v =~= p2.subrange(0, v.len() as int));
                }
                if v.is_prefix_of(p2) {
                    assert(w =~= p.subrange(0, w.len() as int));
                }
            }
            assert(w == p <==> v == p2) by {
                if v == p2 {
                    assert(w =~= p);
                }
            }
            assert(counts_below(m, c).contains_key(v) == m.contains_key(w));
            if v.len() == 0 {
                assert(v.is_prefix_of(p2));
            }
            assert(post.lookup(w) == ch_new.lookup(v));
            assert(post.counts().contains_key(w) == ch_new.counts().contains_key(v));
            assert(ch_new.counts().contains_key(v) == (ch_pre.counts().contains_key(v) || v.is_prefix_of(p2)));
            assert(post.counts().contains_key(w) == target.contains_key(w));
            if post.counts().contains_key(w) {
                assert(post.counts()[w] == ch_new.counts()[v]);
                if m.contains_key(w) {
                    assert(counts_below(m, c)[v] == m[w]);
                }
                assert(post.counts()[w] == target[w]);
            }
        } else {
            assert(!w.is_prefix_of(p)) by {
                if w.is_prefix_of(p) {
                    assert(w[0] == p.subrange(0, w.len() as int)[0]);
                }
            }
            assert(post.counts().contains_key(w) == target.contains_key(w));
            if post.counts().contains_key(w) {
                assert(post.counts()[w] == target[w]);
            }
        }
    }
    assert(post.counts() =~= target);
}

impl Node {
    /// Enough room below this node for a pattern insertion that raises counts and child
    /// totals by at most `k` (the node itself by at most `k - 1`).
    pub closed spec fn room_for(self, k: nat) -> bool {
        &&& self.count + k <= u64::MAX + 1
        &&& forall|w: Seq<char>| #[trigger] self.lookup(w) is Some ==> self.lookup(w)->0.room_at(w, k)
    }

    /// The node at path `w` is keyed by token and its counters can grow by `k`.
    pub closed spec fn room_at(self, w: Seq<char>, k: nat) -> bool {
        &&& self.keyed_by_token()
        &&& self.child_total() + k <= u64::MAX
        &&& (w.len() > 0 ==> self.count + k <= u64::MAX)
    }

    /// Add the characters `chars[i..]` below this node: each node on the path gains one
    /// reference, and missing nodes are created.
    fn insert_path(&mut self, chars: &Vec<char>, i: usize)
        requires
            old(self).room_for(1),
            old(self).positive_below(),
            i <= chars.len(),
        ensures
            final(self).counts() == counts_after_insert(old(self).counts(), chars@.skip(i as int)),
            final(self).wf(),
            final(self).token == old(self).token,
            final(self).count == old(self).count,
        decreases chars.len() - i,
    {
        let ghost k: nat = 1;
        let ghost p = chars@.skip(i as int);
        let ghost m = self.counts();
        let ghost pre = *self;
        if i == chars.len() {
            proof {
                assert(p =~= Seq::<char>::empty());
                assert forall|w: Seq<char>| #[trigger] self.lookup(w) == (if w.len() == 0 { Some(*self) } else { pre.lookup(w) }) by {
                    lemma_lookup_same_children(pre, *self, w);
                }
                assert forall|w: Seq<char>| #![auto] w.is_prefix_of(p) <==> w.len() == 0 by {
                    if w.len() == 0 { assert(w =~= p); }
                }
                assert forall|w: Seq<char>| #![auto] w.len() == 0 ==> w == p by {
                    if w.len() == 0 { assert(w =~= p); }
                }
                assert(pre.lookup(Seq::empty()) == Some(pre));
                assert(self.counts() =~= counts_after_insert(m, p));
                assert forall|w: Seq<char>| #[trigger] self.lookup(w) is Some implies self.lookup(w)->0.ok_with(0) by {
                    assert(pre.lookup(w) is Some);
                }
                assert forall|w: Seq<char>| #[trigger] self.lookup(w) is Some && w.len() > 0 implies self.lookup(w)->0.count >= 1 by {
                    assert(pre.lookup(w) is Some);
                }
            }
            return;
        }
        let c = chars[i];
        let key = c as u32;
        let removed = self.children.remove(&key);
        let ghost removed_g = removed;
        proof {
            if let Some(existing) = removed_g {
                assert(seq![c].drop_first() =~= Seq::<char>::empty());
                assert(existing.lookup(Seq::<char>::empty()) == Some(existing));
                assert(pre.children@.contains_key(key) && pre.children@[key] == existing);
                assert(pre.lookup(seq![c]) == Some(existing));
                assert(pre.lookup(seq![c])->0.room_at(seq![c], k));
                assert(existing.token matches Some(cc) && cc as u32 == key);
                lemma_char_key_injective(existing.token->0, c);
            }
        }
        let mut child = match removed {
            Some(existing) => {
                let mut n = existing;
                n.count = n.count + 1;
                n
            },
            None => Node::new(Some(c)),
        };
        let ghost ch_pre = child;
        proof {
            lemma_bumped_child_counts(pre, c, ch_pre);
            assert forall|v: Seq<char>| #[trigger] pre.lookup(seq![c] + v) == (if pre.children@.contains_key(key) { pre.children@[key].lookup(v) } else { None }) by {
                assert((seq![c] + v).drop_first() =~= v);
                assert((seq![c] + v)[0] == c);
            }
            assert forall|w: Seq<char>| #[trigger] ch_pre.lookup(w) is Some implies ch_pre.lookup(w)->0.room_at(w, k) by {
                if let Some(existing) = removed_g {
                    lemma_lookup_same_children(existing, ch_pre, w);
                    if w.len() > 0 {
                        assert(pre.lookup(seq![c] + w) == existing.lookup(w));
                    }
                } else {
                    assert(ch_pre.counts().contains_key(w));
                    assert(w.len() == 0);
                }
            }
            assert forall|w: Seq<char>| #[trigger] ch_pre.lookup(w) is Some && w.len() > 0 implies ch_pre.lookup(w)->0.count >= 1 by {
                if let Some(existing) = removed_g {
                    lemma_lookup_same_children(existing, ch_pre, w);
                    assert(pre.lookup(seq![c] + w) == existing.lookup(w));
                    assert((seq![c] + w).len() > 0);
                } else {
                    assert(ch_pre.counts().contains_key(w));
                }
            }
            assert(ch_pre.count + k <= u64::MAX + 1) by {
                if let Some(existing) = removed_g {
                    assert(pre.lookup(seq![c])->0.room_at(seq![c], k));
                    assert(ch_pre.count == existing.count + 1);
                } else {
                    assert(ch_pre.lookup(Seq::empty()) == Some(ch_pre));
                    assert(ch_pre.counts().contains_key(Seq::empty()));
                    assert(ch_pre.counts()[Seq::empty()] == 1);
                }
            }
            assert(ch_pre.room_for(k));
        }
        child.insert_path(chars, i + 1);
        let ghost ch_new = child;
        self.children.insert(key, child);
        proof {
            assert(self.children@ =~= pre.children@.insert(key, ch_new));
            assert(p.drop_first() =~= chars@.skip(i as int + 1));
            lemma_graft_insert_counts(pre, *self, c, ch_pre, ch_new, p);
            // The updated node itself stays within bounds.
            lemma_sum_insert(pre.children@.remove(key), key, ch_new);
            assert(pre.children@.remove(key).insert(key, ch_new) =~= self.children@);
            if pre.children@.contains_key(key) {
                lemma_sum_remove(pre.children@, key);
            } else {
                assert(pre.children@.remove(key) =~= pre.children@);
            }
            assert(ch_new.lookup(Seq::empty()) == Some(ch_new));
            assert(ch_pre.lookup(Seq::empty()) == Some(ch_pre));
            assert(ch_new.counts()[Seq::empty()] == ch_new.count);
            assert(ch_pre.counts()[Seq::empty()] == ch_pre.count);
            assert(Seq::<char>::empty().is_prefix_of(p.drop_first()));
            assert(pre.lookup(Seq::empty()) == Some(pre));
            assert forall|kk: u32| #[trigger] self.children@.contains_key(kk) implies (self.children@[kk].token matches Some(cc) && cc as u32 == kk) by {
                if kk != key {
                    assert(pre.children@.contains_key(kk));
                }
            }
            assert forall|w: Seq<char>| #[trigger] self.lookup(w) is Some implies self.lookup(w)->0.ok_with(0) by {
                lemma_lookup_replace_child(pre, *self, c, ch_new, w);
                if w.len() > 0 {
                    if w[0] == c {
                        assert(ch_new.lookup(w.drop_first()) is Some);
                    } else {
                        assert(pre.lookup(w) is Some);
                    }
                }
            }
            assert forall|w: Seq<char>| #[trigger] self.lookup(w) is Some && w.len() > 0 implies self.lookup(w)->0.count >= 1 by {
                lemma_lookup_replace_child(pre, *self, c, ch_new, w);
                if w[0] == c {
                    let v = w.drop_first();
                    if v.len() > 0 {
                        assert(ch_new.lookup(v) is Some);
                    }
                } else {
                    assert(pre.lookup(w) is Some);
                }
            }
        }
    }
}


/// The length of the shortest prefix of `p`, longer than `j`, whose node is referenced
/// exactly once; `p.len() + 1` when there is none.
pub open spec fn unit_cut(m: Map<Seq<char>, nat>, p: Seq<char>, j: int) -> int
    decreases p.len() - j,
{
    if j >= p.len() {
        p.len() + 1int
    } else if m[p.take(j + 1)] == 1 {
        j + 1
    } else {
        unit_cut(m, p, j + 1)
    }
}

/// The counts after the pattern along `p` is removed: walking down `p`, the first node
/// referenced only once is deleted with everything below it, and every node above it on
/// the path loses one reference.
pub open spec fn counts_after_remove(m: Map<Seq<char>, nat>, p: Seq<char>) -> Map<Seq<char>, nat> {
    let j = unit_cut(m, p, 0);
    Map::new(
        |w: Seq<char>| m.contains_key(w) && !(j <= p.len() && p.take(j).is_prefix_of(w)),
        |w: Seq<char>| (m[w] - (if 0 < w.len() < j && w.is_prefix_of(p) { 1int } else { 0int })) as nat,
    )
}

proof fn lemma_unit_cut_shift(m: Map<Seq<char>, nat>, mc: Map<Seq<char>, nat>, p: Seq<char>, j: int)
    requires
        p.len() > 0,
        0 <= j,
        forall|v: Seq<char>| v.len() > 0 && #[trigger] v.is_prefix_of(p.drop_first()) ==> mc[v] == m[seq![p[0]] + v],
    ensures
        unit_cut(m, p, j + 1) == 1 + unit_cut(mc, p.drop_first(), j),
    decreases p.len() - j,
{
    let p2 = p.drop_first();
    if j + 1 < p.len() {
        let v = p2.take(j + 1);
        assert(v.is_prefix_of(p2));
        assert(seq![p[0]] + v =~= p.take(j + 2));
        lemma_unit_cut_shift(m, mc, p, j + 1);
    }
}

impl Node {
    /// The node reached by following `chars[i..]` from this node, if any.
    fn find(&self, chars: &Vec<char>, i: usize) -> (r: Option<&Node>)
        requires
            i <= chars.len(),
        ensures
            match r {
                Some(n) => self.lookup(chars@.skip(i as int)) == Some(*n),
                None => self.lookup(chars@.skip(i as int)) is None,
            },
        decreases chars.len() - i,
    {
        if i == chars.len() {
            proof {
                assert(chars@.skip(i as int) =~= Seq::<char>::empty());
            }
            return Some(self);
        }
        let key = chars[i] as u32;
        proof {
            assert(chars@.skip(i as int).drop_first() =~= chars@.skip(i as int + 1));
        }
        match self.children.get(&key) {
            Some(child) => child.find(chars, i + 1),
            None => None,
        }
    }

    /// Remove the pattern along `chars[i..]` below this node: walking down, the first node
    /// referenced once is deleted with its subtree; nodes above it lose one reference.
    fn remove_path(&mut self, chars: &Vec<char>, i: usize)
        requires
            old(self).wf(),
            i <= chars.len(),
            old(self).lookup(chars@.skip(i as int)) is Some,
        ensures
            final(self).counts() == counts_after_remove(old(self).counts(), chars@.skip(i as int)),
            final(self).wf(),
            final(self).token == old(self).token,
            final(self).count == old(self).count,
        decreases chars.len() - i,
    {
        let ghost p = chars@.skip(i as int);
        let ghost m = self.counts();
        let ghost pre = *self;
        if i == chars.len() {
            proof {
                assert(p =~= Seq::<char>::empty());
                assert(unit_cut(m, p, 0) == 1);
                assert forall|w: Seq<char>| #![auto] m.contains_key(w) implies !(Seq::<char>::empty().is_prefix_of(w) && false) by {}
                assert forall|w: Seq<char>| #![auto] w.is_prefix_of(p) ==> w.len() == 0 by {}
                assert(counts_after_remove(m, p) =~= m) by {
                    assert forall|w: Seq<char>| #![auto] m.contains_key(w) implies counts_after_remove(m, p)[w] == m[w] by {}
                }
            }
            return;
        }
        let c = chars[i];
        let key = c as u32;
        proof {
            assert(p[0] == c);
            assert(p.drop_first() =~= chars@.skip(i as int + 1));
            assert(pre.children@.contains_key(key));
        }
        let child_count = match self.children.get(&key) {
            Some(child) => child.count,
            None => 0,
        };
        let ghost ch_old = pre.children@[key];
        proof {
            assert(seq![c].drop_first() =~= Seq::<char>::empty());
            assert(ch_old.lookup(Seq::<char>::empty()) == Some(ch_old));
            assert(pre.lookup(seq![c]) == Some(ch_old));
            assert(ch_old.count >= 1);
            assert(p.take(1) =~= seq![c]);
            assert(m[p.take(1)] == ch_old.count);
            assert forall|v: Seq<char>| #[trigger] pre.lookup(seq![c] + v) == ch_old.lookup(v) by {
                assert((seq![c] + v).drop_first() =~= v);
                assert((seq![c] + v)[0] == c);
            }
        }
        if child_count == 1 {
            self.children.remove(&key);
            proof {
                assert(unit_cut(m, p, 0) == 1);
                assert(self.children@ == pre.children@.remove(key));
                assert forall|w: Seq<char>| #[trigger] self.lookup(w) == (if w.len() == 0 { Some(*self) } else if w[0] == c { None } else { pre.lookup(w) }) by {
                    if w.len() > 0 {
                        lemma_char_key_injective(w[0], c);
                    }
                }
                assert forall|w: Seq<char>| #![auto] (w.len() > 0 && w[0] == c) <==> p.take(1).is_prefix_of(w) by {
                    if p.take(1).is_prefix_of(w) {
                        assert(w.subrange(0, 1)[0] == w[0]);
                    }
                    if w.len() > 0 && w[0] == c {
                        assert(p.take(1) =~= w.subrange(0, 1));
                    }
                }
                assert(self.counts() =~= counts_after_remove(m, p));
                lemma_sum_remove(pre.children@, key);
                assert forall|kk: u32| #[trigger] self.children@.contains_key(kk) implies (self.children@[kk].token matches Some(cc) && cc as u32 == kk) by {
                    assert(pre.children@.contains_key(kk));
                }
                assert(pre.lookup(Seq::empty()) == Some(pre));
                assert forall|w: Seq<char>| #[trigger] self.lookup(w) is Some implies self.lookup(w)->0.ok_with(0) by {
                    if w.len() > 0 {
                        assert(pre.lookup(w) is Some);
                    }
                }
                assert forall|w: Seq<char>| #[trigger] self.lookup(w) is Some && w.len() > 0 implies self.lookup(w)->0.count >= 1 by {
                    assert(pre.lookup(w) is Some);
                }
            }
            return;
        }
        let mut child = self.children.remove(&key).unwrap();
        child.count = child.count - 1;
        let ghost ch_pre = child;
        proof {
            assert forall|w: Seq<char>| #[trigger] ch_pre.lookup(w) == (if w.len() == 0 { Some(ch_pre) } else { ch_old.lookup(w) }) by {
                lemma_lookup_same_children(ch_old, ch_pre, w);
            }
            assert forall|w: Seq<char>| #[trigger] ch_pre.lookup(w) is Some implies ch_pre.lookup(w)->0.ok_with(0) by {
                assert(pre.lookup(seq![c] + w) == ch_old.lookup(w));
                if w.len() == 0 {
                    assert(ch_old.lookup(w) == Some(ch_old));
                }
            }
            assert forall|w: Seq<char>| #[trigger] ch_pre.lookup(w) is Some && w.len() > 0 implies ch_pre.lookup(w)->0.count >= 1 by {
                assert(pre.lookup(seq![c] + w) == ch_old.lookup(w));
                assert((seq![c] + w).len() > 0);
            }
            assert(ch_pre.lookup(p.drop_first()) is Some) by {
                assert(pre.lookup(seq![c] + p.drop_first()) == ch_old.lookup(p.drop_first()));
                assert(seq![c] + p.drop_first() =~= p);
            }
        }
        child.remove_path(chars, i + 1);
        let ghost ch_new = child;
        self.children.insert(key, child);
        proof {
            let p2 = p.drop_first();
            let mc = ch_pre.counts();
            assert(self.children@ =~= pre.children@.insert(key, ch_new));
            assert forall|v: Seq<char>| v.len() > 0 && #[trigger] v.is_prefix_of(p2) implies mc[v] == m[seq![p[0]] + v] by {
                assert(pre.lookup(seq![c] + v) == ch_old.lookup(v));
                assert(ch_pre.lookup(p2) is Some);
                assert(v =~= p2.take(v.len() as int));
                lemma_lookup_prefix(ch_pre, p2, v.len() as int);
            }
            lemma_unit_cut_shift(m, mc, p, 0);
            assert(unit_cut(m, p, 0) == unit_cut(m, p, 1));
            let j = unit_cut(m, p, 0);
            let j2 = unit_cut(mc, p2, 0);
            lemma_unit_cut_range(mc, p2, 0);
            let target = counts_after_remove(m, p);
            assert forall|w: Seq<char>| #[trigger] self.counts().contains_key(w) == target.contains_key(w) && (self.counts().contains_key(w) ==> self.counts()[w] == target[w]) by {
                lemma_lookup_replace_child(pre, *self, c, ch_new, w);
                if w.len() == 0 {
                    assert(pre.lookup(w) == Some(pre));
                    assert(!(j <= p.len() && p.take(j).is_prefix_of(w)));
                    assert(self.counts().contains_key(w) == target.contains_key(w));
                    assert(self.counts()[w] == target[w]);
                } else if w[0] == c {
                    let v = w.drop_first();
                    assert(seq![c] + v =~= w);
                    assert(w.is_prefix_of(p) <==> v.is_prefix_of(p2)) by {
                        if w.is_prefix_of(p) {
                            assert(v =~= p2.subrange(0, v.len() as int));
                        }
                        if v.is_prefix_of(p2) {
                            assert(w =~= p.subrange(0, w.len() as int));
                        }
                    }
                    assert(j <= p.len() && p.take(j).is_prefix_of(w) <==> j2 <= p2.len() && p2.take(j2).is_prefix_of(v)) by {
                        if j <= p.len() {
                            assert(p.take(j) =~= seq![c] + p2.take(j2));
                            if p.take(j).is_prefix_of(w) {
                                assert forall|x: int| 0 <= x < j2 implies #[trigger] p2.take(j2)[x] == v[x] by {
                                    assert(p.take(j)[x + 1] == w.subrange(0, j)[x + 1]);
                                }
                                assert(p2.take(j2) =~= v.subrange(0, j2));
                            }
                            if p2.take(j2).is_prefix_of(v) {
                                assert(p.take(j) =~= w.subrange(0, j));
                            }
                        }
                    }
                    assert(pre.lookup(w) == ch_old.lookup(v));
                    assert(self.lookup(w) == ch_new.lookup(v));
                    assert(ch_new.counts() == counts_after_remove(mc, p2));
                    if v.len() == 0 {
                        assert(v =~= Seq::<char>::empty());
                        assert(v.is_prefix_of(p2));
                        assert(ch_pre.lookup(v) == Some(ch_pre));
                        assert(mc.contains_key(v) && mc[v] == ch_old.count - 1);
                        assert(m.contains_key(w) && m[w] == ch_old.count);
                    } else {
                        assert(ch_pre.lookup(v) == ch_old.lookup(v));
                        assert(mc.contains_key(v) == m.contains_key(w));
                        assert(mc.contains_key(v) ==> mc[v] == m[w]);
                    }
                    assert(self.counts().contains_key(w) == ch_new.counts().contains_key(v));
                    assert(self.counts().contains_key(w) == target.contains_key(w));
                    if self.counts().contains_key(w) {
                        assert(self.counts()[w] == ch_new.counts()[v]);
                        assert(self.counts()[w] == target[w]);
                    }
                } else {
                    assert(!w.is_prefix_of(p)) by {
                        if w.is_prefix_of(p) {
                            assert(w[0] == p.subrange(0, w.len() as int)[0]);
                        }
                    }
                    assert(!(j <= p.len() && p.take(j).is_prefix_of(w))) by {
                        if j <= p.len() && p.take(j).is_prefix_of(w) {
                            assert(p.take(j)[0] == w[0]);
                        }
                    }
                }
            }
            assert(self.counts() =~= target);
            // Well-formedness of the updated node.
            lemma_sum_insert(pre.children@.remove(key), key, ch_new);
            assert(pre.children@.remove(key).insert(key, ch_new) =~= self.children@);
            lemma_sum_remove(pre.children@, key);
            assert(pre.lookup(Seq::empty()) == Some(pre));
            assert forall|kk: u32| #[trigger] self.children@.contains_key(kk) implies (self.children@[kk].token matches Some(cc) && cc as u32 == kk) by {
                if kk != key {
                    assert(pre.children@.contains_key(kk));
                }
            }
            assert forall|w: Seq<char>| #[trigger] self.lookup(w) is Some implies self.lookup(w)->0.ok_with(0) by {
                lemma_lookup_replace_child(pre, *self, c, ch_new, w);
                if w.len() > 0 {
                    if w[0] == c {
                        assert(ch_new.lookup(w.drop_first()) is Some);
                    } else {
                        assert(pre.lookup(w) is Some);
                    }
                }
            }
            assert forall|w: Seq<char>| #[trigger] self.lookup(w) is Some && w.len() > 0 implies self.lookup(w)->0.count >= 1 by {
                lemma_lookup_replace_child(pre, *self, c, ch_new, w);
                if w[0] == c {
                    let v = w.drop_first();
                    if v.len() > 0 {
                        assert(ch_new.lookup(v) is Some);
                    }
                } else {
                    assert(pre.lookup(w) is Some);
                }
            }
        }
    }
}

proof fn lemma_unit_cut_range(m: Map<Seq<char>, nat>, p: Seq<char>, j: int)
    requires
        0 <= j,
    ensures
        j <= p.len() ==> j < unit_cut(m, p, j) <= p.len() + 1,
    decreases p.len() - j,
{
    if j < p.len() {
        lemma_unit_cut_range(m, p, j + 1);
    }
}

/// Every prefix of a path that exists below a node exists too.
pub proof fn lemma_lookup_prefix(n: Node, w: Seq<char>, i: int)
    requires
        n.lookup(w) is Some,
        0 <= i <= w.len(),
    ensures
        n.lookup(w.take(i)) is Some,
    decreases w.len(),
{
    if i > 0 {
        let c = w[0];
        let ch = n.children@[c as u32];
        lemma_lookup_prefix(ch, w.drop_first(), i - 1);
        assert(w.take(i).drop_first() =~= w.drop_first().take(i - 1));
    } else {
        assert(w.take(i) =~= Seq::<char>::empty());
    }
}


/// Whether the pattern `w` matches `s`: `*` matches any run of characters, the empty one
/// included; with `single`, `?` matches exactly one character; any other character matches
/// itself.
pub open spec fn pattern_matches(w: Seq<char>, s: Seq<char>, single: bool) -> bool
    decreases w.len() + s.len(),
{
    if w.len() == 0 {
        s.len() == 0
    } else if w[0] == '*' {
        pattern_matches(w.drop_first(), s, single) || (s.len() > 0 && pattern_matches(w, s.drop_first(), single))
    } else if s.len() == 0 {
        false
    } else if single && w[0] == '?' {
        pattern_matches(w.drop_first(), s.drop_first(), single)
    } else {
        w[0] == s[0] && pattern_matches(w.drop_first(), s.drop_first(), single)
    }
}

/// Whether the glob pattern `w` matches `s`, with both wildcards: `*` matches any run of
/// characters and `?` exactly one character.
pub open spec fn glob_matches(w: Seq<char>, s: Seq<char>) -> bool {
    pattern_matches(w, s, true)
}

/// Some pattern of the tree with counts `m` matches `s`.
pub open spec fn matched_by(m: Map<Seq<char>, nat>, s: Seq<char>, single: bool) -> bool {
    exists|w: Seq<char>| #[trigger] ends_pattern_in(m, w) && pattern_matches(w, s, single)
}

proof fn lemma_terminal_at_child(n: Node, c: char, v: Seq<char>)
    ensures
        n.terminal_at(seq![c] + v) == (n.children@.contains_key(c as u32) && n.children@[c as u32].terminal_at(v)),
        n.lookup(seq![c] + v) == (if n.children@.contains_key(c as u32) { n.children@[c as u32].lookup(v) } else { None }),
{
    assert((seq![c] + v).drop_first() =~= v);
    assert((seq![c] + v)[0] == c);
}

/// Some pattern ending below `n` (its own token left out) matches `s` from `pos`.
pub open spec fn below_matches(n: Node, s: Seq<char>, pos: int, single: bool) -> bool {
    exists|v: Seq<char>| #[trigger] n.terminal_at(v) && pattern_matches(v, s.skip(pos), single)
}

/// Some pattern ending below `n`, preceded by a wildcard, matches `s` from `pos`.
pub open spec fn star_below_matches(n: Node, s: Seq<char>, pos: int, single: bool) -> bool {
    exists|v: Seq<char>| #[trigger] n.terminal_at(v) && pattern_matches(seq!['*'] + v, s.skip(pos), single)
}

/// The child of `n` under character `c` exists and a pattern below it matches from `pos`.
spec fn kid_below(n: Node, c: char, s: Seq<char>, pos: int, single: bool) -> bool {
    n.children@.contains_key(c as u32) && below_matches(n.children@[c as u32], s, pos, single)
}

/// A wildcard placed before a pattern lets it match from the same place, or absorb one more
/// character.
proof fn lemma_star_unfold(v: Seq<char>, t: Seq<char>, single: bool)
    ensures
        pattern_matches(seq!['*'] + v, t, single) == (pattern_matches(v, t, single) || (t.len() > 0
            && pattern_matches(seq!['*'] + v, t.drop_first(), single))),
{
    assert((seq!['*'] + v)[0] == '*');
    assert((seq!['*'] + v).drop_first() =~= v);
}

/// A pattern led by `c` matches `t` when `t` starts with a character that `c` stands for and
/// the rest of the pattern matches the rest of `t`.
proof fn lemma_lead_char(c: char, v: Seq<char>, t: Seq<char>, single: bool)
    requires
        t.len() > 0,
        c == t[0] || (single && c == '?'),
        pattern_matches(v, t.drop_first(), single),
    ensures
        pattern_matches(seq![c] + v, t, single),
{
    assert((seq![c] + v)[0] == c);
    assert((seq![c] + v).drop_first() =~= v);
    if c == '*' {
        lemma_star_unfold(v, t.drop_first(), single);
        lemma_star_unfold(v, t, single);
    }
}

/// A pattern below a wildcard node matches from `pos` either as it stands, or after the
/// wildcard absorbs the character at `pos`.
proof fn lemma_star_below_step(n: Node, s: Seq<char>, pos: int, single: bool)
    requires
        0 <= pos <= s.len(),
    ensures
        star_below_matches(n, s, pos, single) == (below_matches(n, s, pos, single) || (pos < s.len()
            && star_below_matches(n, s, pos + 1, single))),
{
    let rest = s.skip(pos);
    if pos < s.len() {
        assert(rest.drop_first() =~= s.skip(pos + 1));
    }
    assert forall|v: Seq<char>| #![auto] pattern_matches(seq!['*'] + v, rest, single) == (pattern_matches(v, rest, single)
        || (pos < s.len() && pattern_matches(seq!['*'] + v, s.skip(pos + 1), single))) by {
        lemma_star_unfold(v, rest, single);
    }
    if star_below_matches(n, s, pos, single) {
        let v = choose|v: Seq<char>| #[trigger] n.terminal_at(v) && pattern_matches(seq!['*'] + v, rest, single);
        if pattern_matches(v, rest, single) {
            assert(n.terminal_at(v) && pattern_matches(v, rest, single));
        }
    }
    if below_matches(n, s, pos, single) {
        let v = choose|v: Seq<char>| #[trigger] n.terminal_at(v) && pattern_matches(v, rest, single);
        assert(n.terminal_at(v) && pattern_matches(seq!['*'] + v, rest, single));
    }
    if pos < s.len() && star_below_matches(n, s, pos + 1, single) {
        let v = choose|v: Seq<char>| #[trigger] n.terminal_at(v) && pattern_matches(seq!['*'] + v, s.skip(pos + 1), single);
        assert(n.terminal_at(v) && pattern_matches(seq!['*'] + v, rest, single));
    }
}

/// A pattern below a node matches from `pos` exactly when the node itself ends a pattern at
/// the end of `s`, or a child matching the character at `pos` (or, with `single`, the child
/// `?`) leads to a match from `pos + 1`, or the wildcard child leads to one from `pos`.
proof fn lemma_below_step(n: Node, s: Seq<char>, pos: int, single: bool)
    requires
        n.keyed_by_token(),
        0 <= pos <= s.len(),
    ensures
        below_matches(n, s, pos, single) == ((pos == s.len() && n.terminal_at(Seq::empty()))
            || (pos < s.len() && kid_below(n, s[pos], s, pos + 1, single))
            || (single && pos < s.len() && kid_below(n, '?', s, pos + 1, single))
            || (n.children@.contains_key('*' as u32) && star_below_matches(n.children@['*' as u32], s, pos, single))),
{
    let rest = s.skip(pos);
    if pos < s.len() {
        assert(rest.drop_first() =~= s.skip(pos + 1));
        assert(rest[0] == s[pos]);
    }
    if below_matches(n, s, pos, single) {
        let v = choose|v: Seq<char>| #[trigger] n.terminal_at(v) && pattern_matches(v, rest, single);
        if v.len() == 0 {
            assert(v =~= Seq::<char>::empty());
        } else {
            let c = v[0];
            let v2 = v.drop_first();
            assert(seq![c] + v2 =~= v);
            lemma_terminal_at_child(n, c, v2);
            let ch = n.children@[c as u32];
            assert(ch.token matches Some(cc) && cc as u32 == c as u32);
            lemma_char_key_injective(ch.token->0, c);
            assert(ch.terminal_at(v2));
            if c == '*' {
                assert(ch.terminal_at(v2) && pattern_matches(seq!['*'] + v2, rest, single));
            } else {
                assert(rest.len() > 0);
                assert(pattern_matches(v2, s.skip(pos + 1), single));
                assert(ch.terminal_at(v2) && pattern_matches(v2, s.skip(pos + 1), single));
                if !(single && c == '?') {
                    assert(c == s[pos]);
                }
            }
        }
    }
    if pos == s.len() && n.terminal_at(Seq::empty()) {
        assert(rest.len() == 0);
        assert(n.terminal_at(Seq::<char>::empty()) && pattern_matches(Seq::<char>::empty(), rest, single));
    }
    let kinds = seq![if pos < s.len() { s[pos] } else { '*' }, '?'];
    assert forall|i: int| 0 <= i < 2 && pos < s.len() && (i == 0 || single) && #[trigger] kid_below(n, kinds[i], s, pos + 1, single)
        implies below_matches(n, s, pos, single) by {
        let c = kinds[i];
        let ch = n.children@[c as u32];
        assert(ch.token matches Some(cc) && cc as u32 == c as u32);
        lemma_char_key_injective(ch.token->0, c);
        let v2 = choose|v2: Seq<char>| #[trigger] ch.terminal_at(v2) && pattern_matches(v2, s.skip(pos + 1), single);
        lemma_terminal_at_child(n, c, v2);
        lemma_lead_char(c, v2, rest, single);
        assert(n.terminal_at(seq![c] + v2) && pattern_matches(seq![c] + v2, rest, single));
    }
    if pos < s.len() && kid_below(n, s[pos], s, pos + 1, single) {
        assert(kid_below(n, kinds[0], s, pos + 1, single));
    }
    if single && pos < s.len() && kid_below(n, '?', s, pos + 1, single) {
        assert(kid_below(n, kinds[1], s, pos + 1, single));
    }
    if n.children@.contains_key('*' as u32) && star_below_matches(n.children@['*' as u32], s, pos, single) {
        let ch = n.children@['*' as u32];
        let v2 = choose|v2: Seq<char>| #[trigger] ch.terminal_at(v2) && pattern_matches(seq!['*'] + v2, rest, single);
        lemma_terminal_at_child(n, '*', v2);
        assert(n.terminal_at(seq!['*'] + v2) && pattern_matches(seq!['*'] + v2, rest, single));
    }
}

impl Node {
    proof fn lemma_child_wf(self, k: u32)
        requires
            self.wf(),
            self.children@.contains_key(k),
        ensures
            self.children@[k].wf(),
            self.children@[k].spec_token() matches Some(c) && c as u32 == k,
    {
        let ch = self.children@[k];
        assert(self.lookup(Seq::empty()) == Some(self));
        assert(self.lookup(Seq::empty())->0.ok_with(0));
        assert(ch.token matches Some(cc) && cc as u32 == k);
        let c = ch.token->0;
        assert forall|v: Seq<char>| #[trigger] ch.lookup(v) == self.lookup(seq![c] + v) by {
            lemma_terminal_at_child(self, c, v);
        }
        assert forall|v: Seq<char>| #[trigger] ch.lookup(v) is Some implies ch.lookup(v)->0.ok_with(0) by {
            assert(self.lookup(seq![c] + v) is Some);
        }
        assert forall|v: Seq<char>| #[trigger] ch.lookup(v) is Some && v.len() > 0 implies ch.lookup(v)->0.count >= 1 by {
            assert(self.lookup(seq![c] + v) is Some);
            assert((seq![c] + v).len() > 0);
        }
    }

    /// Search the tree below this node for a pattern matching the characters `s` from `pos`,
    /// trying the child of the character at `pos`, then (with `single`) the child `?`, then
    /// the wildcard child; answer the rest of the first pattern found, after this node.
    pub(crate) fn match_worker(&self, s: &Vec<char>, pos: usize, single: bool) -> (r: Option<Vec<char>>)
        requires
            self.wf(),
            pos <= s@.len(),
        ensures
            r is Some == below_matches(*self, s@, pos as int, single),
            r matches Some(v) ==> self.terminal_at(v@) && pattern_matches(v@, s@.skip(pos as int), single),
        decreases s@.len() - pos, self, 0int,
    {
        proof {
            assert(self.lookup(Seq::empty()) == Some(*self));
            assert(self.lookup(Seq::empty())->0.ok_with(0));
            lemma_below_step(*self, s@, pos as int, single);
        }
        if pos == s.len() && self.is_terminal() {
            proof {
                assert(s@.skip(pos as int).len() == 0);
            }
            return Some(Vec::new());
        }
        if pos < s.len() {
            let c = s[pos];
            if let Some(child) = self.children.get(&(c as u32)) {
                proof { self.lemma_child_wf(c as u32); }
                if let Some(mut v) = child.match_worker(s, pos + 1, single) {
                    proof {
                        lemma_char_key_injective(child.spec_token()->0, c);
                        lemma_terminal_at_child(*self, c, v@);
                        assert(s@.skip(pos as int).drop_first() =~= s@.skip(pos as int + 1));
                        lemma_lead_char(c, v@, s@.skip(pos as int), single);
                    }
                    let ghost v2 = v@;
                    v.insert(0, c);
                    proof { assert(v@ =~= seq![c] + v2); }
                    return Some(v);
                }
            }
            if single {
                if let Some(child) = self.children.get(&('?' as u32)) {
                    proof { self.lemma_child_wf('?' as u32); }
                    if let Some(mut v) = child.match_worker(s, pos + 1, single) {
                        proof {
                            lemma_terminal_at_child(*self, '?', v@);
                            assert(s@.skip(pos as int).drop_first() =~= s@.skip(pos as int + 1));
                            lemma_lead_char('?', v@, s@.skip(pos as int), single);
                        }
                        let ghost v2 = v@;
                        v.insert(0, '?');
                        proof { assert(v@ =~= seq!['?'] + v2); }
                        return Some(v);
                    }
                }
            }
        }
        if let Some(child) = self.children.get(&('*' as u32)) {
            proof {
                self.lemma_child_wf('*' as u32);
                assert(decreases_to!(self.children => self.children@));
                assert(decreases_to!(self.children@ => self.children@['*' as u32]));
            }
            if let Some(mut v) = child.star_worker(s, pos, single) {
                proof { lemma_terminal_at_child(*self, '*', v@); }
                let ghost v2 = v@;
                v.insert(0, '*');
                proof { assert(v@ =~= seq!['*'] + v2); }
                return Some(v);
            }
        }
        None
    }

    /// Search below this wildcard node for a pattern that, preceded by the wildcard, matches
    /// the characters `s` from `pos`: the wildcard absorbs nothing, or the character at `pos`
    /// and then some more. Answer the rest of the first pattern found, after this node.
    fn star_worker(&self, s: &Vec<char>, pos: usize, single: bool) -> (r: Option<Vec<char>>)
        requires
            self.wf(),
            pos <= s@.len(),
        ensures
            r is Some == star_below_matches(*self, s@, pos as int, single),
            r matches Some(v) ==> self.terminal_at(v@) && pattern_matches(seq!['*'] + v@, s@.skip(pos as int), single),
        decreases s@.len() - pos, self, 1int,
    {
        proof { lemma_star_below_step(*self, s@, pos as int, single); }
        if let Some(v) = self.match_worker(s, pos, single) {
            proof { lemma_star_unfold(v@, s@.skip(pos as int), single); }
            return Some(v);
        }
        if pos < s.len() {
            let r = self.star_worker(s, pos + 1, single);
            proof {
                if r is Some {
                    let v = r->0;
                    assert(s@.skip(pos as int).drop_first() =~= s@.skip(pos as int + 1));
                    lemma_star_unfold(v@, s@.skip(pos as int), single);
                }
            }
            return r;
        }
        None
    }
}

/// `a` comes before `b` in lexicographic order of character codes: `a` is a proper prefix
/// of `b`, or at the first position where they differ `a` holds the smaller code.
pub open spec fn lex_lt(a: Seq<char>, b: Seq<char>) -> bool {
    ||| (a.len() < b.len() && a == b.take(a.len() as int))
    ||| exists|i: int|
        0 <= i < a.len() && i < b.len() && a.take(i) == b.take(i) && (#[trigger] a[i] as u32) < (b[i] as u32)
}

/// The prefix that a node contributes to the strings listed below it.
pub open spec fn token_prefix(n: Node) -> Seq<char> {
    match n.spec_token() {
        Some(t) => seq![t],
        None => Seq::empty(),
    }
}

/// `out` lists, in strictly increasing lexicographic order, exactly the strings `base + v`
/// for which the path `v` ends a pattern below `n`.
pub open spec fn lists_patterns(out: Seq<Seq<char>>, n: Node, base: Seq<char>) -> bool {
    &&& forall|i: int, j: int| 0 <= i < j < out.len() ==> lex_lt(#[trigger] out[i], #[trigger] out[j])
    &&& forall|x: Seq<char>| #[trigger] out.contains(x) <==> exists|v: Seq<char>| #[trigger] n.terminal_at(v) && x == base + v
}

/// The character sequences of a sequence of strings.
pub open spec fn string_views(v: Seq<String>) -> Seq<Seq<char>> {
    v.map_values(|s: String| s@)
}

/// Collects the characters of `chars` into a `String` with std's `FromIterator<&char>` for
/// `String`, which appends them in order: the string holds exactly those characters.
#[verifier::external_body]
fn string_from_chars(chars: &Vec<char>) -> (s: String)
    ensures
        s@ == chars@,
{
    chars.iter().collect()
}

proof fn lemma_keys_increasing(ks: Seq<u32>)
    requires
        vstd::std_specs::btree::increasing_seq(ks),
    ensures
        forall|a: int, b: int| 0 <= a < b < ks.len() ==> #[trigger] ks[a] < #[trigger] ks[b],
{
    assert forall|a: int, b: int| 0 <= a < b < ks.len() implies #[trigger] ks[a] < #[trigger] ks[b] by {
        assert(ks[a].cmp_spec(&ks[b]) is Less);
    }
}

proof fn lemma_lex_prefix(base: Seq<char>, a: Seq<char>)
    requires
        a.len() > base.len(),
        a.take(base.len() as int) == base,
    ensures
        lex_lt(base, a),
{
}

proof fn lemma_lex_branch(base: Seq<char>, a: Seq<char>, b: Seq<char>)
    requires
        a.len() > base.len(),
        b.len() > base.len(),
        a.take(base.len() as int) == base,
        b.take(base.len() as int) == base,
        (a[base.len() as int] as u32) < (b[base.len() as int] as u32),
    ensures
        lex_lt(a, b),
{
    let i = base.len() as int;
    assert(a.take(i) == b.take(i));
}

impl Node {
    /// Append, in lexicographic order, every string `buffer + token + v` for which `v` ends
    /// a pattern below this node.
    fn list_worker(&self, strings: &mut Vec<String>, buffer: &mut Vec<char>)
        requires
            self.wf(),
        ensures
            final(buffer)@ == old(buffer)@,
            final(strings)@.len() >= old(strings)@.len(),
            final(strings)@.take(old(strings)@.len() as int) == old(strings)@,
            lists_patterns(
                final(strings)@.skip(old(strings)@.len() as int).map_values(|x: String| x@),
                *self,
                old(buffer)@ + token_prefix(*self),
            ),
        decreases self,
    {
        let ghost b0 = buffer@;
        let ghost s0 = strings@;
        let ghost base = b0 + token_prefix(*self);
        if let Some(token) = self.token {
            buffer.push(token);
        }
        proof {
            assert(buffer@ =~= base);
            assert(self.lookup(Seq::empty()) == Some(*self));
        }
        if self.is_terminal() {
            let s = string_from_chars(buffer);
            strings.push(s);
        }
        let ghost own: Seq<Seq<char>> = if self.terminal_at(Seq::empty()) { seq![base] } else { Seq::empty() };
        proof {
            assert(strings@.skip(s0.len() as int).map_values(|x: String| x@) =~= own);
            if self.terminal_at(Seq::empty()) {
                assert(own[0] == base);
                assert(base + Seq::<char>::empty() =~= base);
                assert(own.contains(base));
            }
            assert forall|x: Seq<char>| #[trigger] own.contains(x) implies exists|v: Seq<char>| #[trigger] self.terminal_at(v) && x == base + v by {
                assert(base + Seq::<char>::empty() =~= base);
                assert(self.terminal_at(Seq::<char>::empty()));
            }
        }
        let ghost m = self.children@;
        let it = self.children.values();
        let ghost ks: Seq<u32> = choose|key_seq: Seq<u32>|
            {
                &&& vstd::std_specs::btree::increasing_seq(key_seq)
                &&& key_seq.to_set() == m.dom()
                &&& key_seq.no_duplicates()
                &&& it.remaining() == key_seq.map(|i: int, k: u32| &m[k])
            };
        proof {
            lemma_keys_increasing(ks);
        }
        for child in iter: it
            invariant
                iter.seq() == ks.map(|i: int, k: u32| &m[k]),
                ks.to_set() == m.dom(),
                forall|a: int, b: int| 0 <= a < b < ks.len() ==> #[trigger] ks[a] < #[trigger] ks[b],
                m == self.children@,
                self.wf(),
                buffer@ == base,
                strings@.len() >= s0.len(),
                strings@.take(s0.len() as int) == s0,
                ({
                    let out = strings@.skip(s0.len() as int).map_values(|x: String| x@);
                    &&& forall|a: int, b: int| 0 <= a < b < out.len() ==> lex_lt(#[trigger] out[a], #[trigger] out[b])
                    &&& forall|x: Seq<char>| #[trigger] out.contains(x) ==> (x == base && self.terminal_at(Seq::empty())) || (x.len() > base.len() && x.take(base.len() as int) == base
                        && exists|a: int| 0 <= a < iter.index() && #[trigger] ks[a] == x[base.len() as int] as u32)
                    &&& forall|x: Seq<char>| #[trigger] out.contains(x) ==> exists|v: Seq<char>| #[trigger] self.terminal_at(v) && x == base + v
                    &&& (self.terminal_at(Seq::empty()) ==> out.contains(base))
                    &&& forall|v: Seq<char>| #[trigger] self.terminal_at(v) && v.len() > 0 && (exists|a: int| 0 <= a < iter.index() && #[trigger] ks[a] == v[0] as u32) ==> out.contains(base + v)
                }),
        {
            let ghost idx = iter.index();
            let ghost k = ks[idx];
            let ghost before = strings@;
            let ghost out = before.skip(s0.len() as int).map_values(|x: String| x@);
            proof {
                assert(ks.to_set().contains(k));
                assert(m.dom().contains(k));
                assert(*child == m[k]);
                self.lemma_child_wf(k);
                assert(decreases_to!(self.children => self.children@));
                assert(decreases_to!(m => m[k]));
            }
            child.list_worker(strings, buffer);
            proof {
                let c = child.token->0;
                assert(c as u32 == k);
                let added_s = strings@.skip(before.len() as int);
                let added = added_s.map_values(|x: String| x@);
                assert(token_prefix(*child) == seq![c]);
                assert(base + token_prefix(*child) == base.push(c));
                let out2 = strings@.skip(s0.len() as int).map_values(|x: String| x@);
                assert(strings@ =~= before + added_s) by {
                    assert(strings@.take(before.len() as int) == before);
                }
                assert(out2 =~= out + added);
                // Every added string lies below `base + [c]`.
                assert forall|y: Seq<char>| #[trigger] added.contains(y) implies y.len() > base.len() && y.take(base.len() as int) == base && y[base.len() as int] == c
                    && exists|v: Seq<char>| #[trigger] self.terminal_at(v) && y == base + v by {
                    let v2 = choose|v2: Seq<char>| #[trigger] child.terminal_at(v2) && y == base.push(c) + v2;
                    assert(y == base + (seq![c] + v2));
                    lemma_terminal_at_child(*self, c, v2);
                    assert(self.terminal_at(seq![c] + v2));
                    assert(y.take(base.len() as int) =~= base);
                }
                // Order across the old and the added strings.
                assert forall|a: int, b: int| 0 <= a < b < out2.len() implies lex_lt(#[trigger] out2[a], #[trigger] out2[b]) by {
                    if b >= out.len() && a < out.len() {
                        let x = out[a];
                        let y = added[b - out.len()];
                        assert(out.contains(x));
                        assert(added.contains(y));
                        if x == base && self.terminal_at(Seq::empty()) {
                            lemma_lex_prefix(base, y);
                        } else {
                            let a2 = choose|a2: int| 0 <= a2 < idx && #[trigger] ks[a2] == x[base.len() as int] as u32;
                            assert(ks[a2] < ks[idx]);
                            lemma_lex_branch(base, x, y);
                        }
                    } else if a >= out.len() {
                        assert(added[a - out.len()] == out2[a]);
                        assert(added[b - out.len()] == out2[b]);
                    }
                }
                assert forall|x: Seq<char>| #[trigger] out2.contains(x) implies (x == base && self.terminal_at(Seq::empty())) || (x.len() > base.len() && x.take(base.len() as int) == base
                        && exists|a: int| 0 <= a < idx + 1 && #[trigger] ks[a] == x[base.len() as int] as u32) by {
                    let j = choose|j: int| 0 <= j < out2.len() && out2[j] == x;
                    if j < out.len() {
                        assert(out.contains(x));
                    } else {
                        assert(added[j - out.len()] == x);
                        assert(added.contains(x));
                        assert(ks[idx] == x[base.len() as int] as u32);
                    }
                }
                assert forall|x: Seq<char>| #[trigger] out2.contains(x) implies exists|v: Seq<char>| #[trigger] self.terminal_at(v) && x == base + v by {
                    let j = choose|j: int| 0 <= j < out2.len() && out2[j] == x;
                    if j < out.len() {
                        assert(out.contains(x));
                    } else {
                        assert(added[j - out.len()] == x);
                        assert(added.contains(x));
                    }
                }
                if self.terminal_at(Seq::empty()) {
                    assert(out.contains(base));
                    let j = choose|j: int| 0 <= j < out.len() && out[j] == base;
                    assert(out2[j] == base);
                }
                assert forall|v: Seq<char>| #[trigger] self.terminal_at(v) && v.len() > 0 && (exists|a: int| 0 <= a < idx + 1 && #[trigger] ks[a] == v[0] as u32) implies out2.contains(base + v) by {
                    let a = choose|a: int| 0 <= a < idx + 1 && #[trigger] ks[a] == v[0] as u32;
                    if a < idx {
                        assert(out.contains(base + v));
                        let j = choose|j: int| 0 <= j < out.len() && out[j] == base + v;
                        assert(out2[j] == base + v);
                    } else {
                        lemma_char_key_injective(v[0], c);
                        let v2 = v.drop_first();
                        assert(seq![c] + v2 =~= v);
                        lemma_terminal_at_child(*self, c, v2);
                        assert(child.terminal_at(v2));
                        assert(base + v =~= base.push(c) + v2);
                        assert(added.contains(base + v));
                        let j = choose|j: int| 0 <= j < added.len() && added[j] == base + v;
                        assert(out2[j + out.len()] == base + v);
                    }
                }
            }
        }
        proof {
            let out = strings@.skip(s0.len() as int).map_values(|x: String| x@);
            assert forall|x: Seq<char>| #[trigger] out.contains(x) <==> exists|v: Seq<char>| #[trigger] self.terminal_at(v) && x == base + v by {
                if exists|v: Seq<char>| #[trigger] self.terminal_at(v) && x == base + v {
                    let v = choose|v: Seq<char>| #[trigger] self.terminal_at(v) && x == base + v;
                    if v.len() == 0 {
                        assert(v =~= Seq::<char>::empty());
                        assert(x =~= base);
                    } else {
                        lemma_terminal_at_child(*self, v[0], v.drop_first());
                        assert(seq![v[0]] + v.drop_first() =~= v);
                        assert(m.dom().contains(v[0] as u32));
                        assert(ks.to_set().contains(v[0] as u32));
                        let a = choose|a: int| 0 <= a < ks.len() && ks[a] == v[0] as u32;
                        assert(ks[a] == v[0] as u32);
                    }
                }
            }
        }
        if let Some(_) = self.token {
            buffer.pop();
        }
    }
}


/// The characters of a string, in order.
pub fn chars_of(s: &str) -> (v: Vec<char>)
    ensures
        v@ == s@,
{
    let mut v: Vec<char> = Vec::new();
    for c in iter: s.chars()
        invariant
            iter.seq() == s@,
            v@ == s@.take(iter.index()),
    {
        v.push(c);
        proof {
            assert(s@.take(iter.index() + 1) =~= s@.take(iter.index()).push(c));
        }
    }
    proof {
        assert(s@.take(s@.len() as int) =~= s@);
    }
    v
}

/// The counts after the subtree at `c` is replaced by one with counts `mc`.
pub open spec fn counts_with_child(m: Map<Seq<char>, nat>, c: char, mc: Map<Seq<char>, nat>) -> Map<Seq<char>, nat> {
    Map::new(
        |w: Seq<char>| if w.len() > 0 && w[0] == c { mc.contains_key(w.drop_first()) } else { m.contains_key(w) },
        |w: Seq<char>| if w.len() > 0 && w[0] == c { mc[w.drop_first()] } else { m[w] },
    )
}

impl Node {
    /// Insert a child node, keyed by its token; a node without a token is not inserted.
    /// The child must be referenced at least once, as every node below the root of a
    /// well-formed tree is (each one counts the patterns that pass through it, and a node that
    /// no pattern passes through is deleted); `Node::new` makes such a node.
    pub fn insert_child(&mut self, child: Node)
        requires
            old(self).wf(),
            child.wf(),
            child.spec_count() >= 1,
            old(self).child_total() + child.spec_count() <= u64::MAX,
        ensures
            final(self).wf(),
            final(self).spec_token() == old(self).spec_token(),
            final(self).spec_count() == old(self).spec_count(),
            child.spec_token() matches Some(c) ==> final(self).counts() == counts_with_child(old(self).counts(), c, child.counts()),
            child.spec_token() is None ==> final(self).counts() == old(self).counts(),
    {
        let ghost pre = *self;
        if let Some(c) = child.token {
            let ghost ch = child;
            self.children.insert(c as u32, child);
            proof {
                assert(self.children@ == pre.children@.insert(c as u32, ch));
                assert forall|w: Seq<char>| #[trigger] self.lookup(w) == (if w.len() == 0 { Some(*self) } else if w[0] == c { ch.lookup(w.drop_first()) } else { pre.lookup(w) }) by {
                    lemma_lookup_replace_child(pre, *self, c, ch, w);
                }
                assert(pre.lookup(Seq::empty()) == Some(pre));
                assert(ch.lookup(Seq::empty()) == Some(ch));
                assert(self.counts() =~= counts_with_child(pre.counts(), c, ch.counts()));
                lemma_sum_insert(pre.children@, c as u32, ch);
                assert forall|kk: u32| #[trigger] self.children@.contains_key(kk) implies (self.children@[kk].token matches Some(cc) && cc as u32 == kk) by {
                    if kk != c as u32 {
                        assert(pre.children@.contains_key(kk));
                    }
                }
                assert forall|w: Seq<char>| #[trigger] self.lookup(w) is Some implies self.lookup(w)->0.ok_with(0) by {
                    if w.len() > 0 {
                        if w[0] == c {
                            assert(ch.lookup(w.drop_first()) is Some);
                        } else {
                            assert(pre.lookup(w) is Some);
                        }
                    }
                }
                assert forall|w: Seq<char>| #[trigger] self.lookup(w) is Some && w.len() > 0 implies self.lookup(w)->0.count >= 1 by {
                    if w[0] == c {
                        if w.drop_first().len() > 0 {
                            assert(ch.lookup(w.drop_first()) is Some);
                        }
                    } else {
                        assert(pre.lookup(w) is Some);
                    }
                }
            }
        }
    }

    /// Increment the reference count of this node.
    pub fn increment_count(&mut self)
        requires
            old(self).wf(),
            old(self).spec_count() < u64::MAX,
        ensures
            final(self).wf(),
            final(self).spec_token() == old(self).spec_token(),
            final(self).counts() == old(self).counts().insert(Seq::empty(), old(self).spec_count() + 1),
    {
        self.count = self.count + 1;
        proof { self.lemma_count_changed(*old(self)); }
    }

    /// Decrement the reference count of this node.
    pub fn decrement_count(&mut self)
        requires
            old(self).wf(),
            old(self).spec_count() >= 1,
        ensures
            final(self).wf(),
            final(self).spec_token() == old(self).spec_token(),
            final(self).counts() == old(self).counts().insert(Seq::empty(), (old(self).spec_count() - 1) as nat),
    {
        self.count = self.count - 1;
        proof { self.lemma_count_changed(*old(self)); }
    }

    proof fn lemma_count_changed(self, pre: Node)
        requires
            pre.wf(),
            self.children@ == pre.children@,
            self.token == pre.token,
        ensures
            self.wf(),
            self.counts() == pre.counts().insert(Seq::empty(), self.count as nat),
    {
        assert forall|w: Seq<char>| #[trigger] self.lookup(w) == (if w.len() == 0 { Some(self) } else { pre.lookup(w) }) by {
            lemma_lookup_same_children(pre, self, w);
        }
        assert(pre.lookup(Seq::empty()) == Some(pre));
        assert forall|w: Seq<char>| #[trigger] self.counts().contains_key(w) == pre.counts().insert(Seq::empty(), self.count as nat).contains_key(w) by {
            if w.len() == 0 {
                assert(w =~= Seq::<char>::empty());
            }
        }
        assert forall|w: Seq<char>| #![auto] self.counts().contains_key(w) implies self.counts()[w] == pre.counts().insert(Seq::empty(), self.count as nat)[w] by {
            if w.len() == 0 {
                assert(w =~= Seq::<char>::empty());
            }
        }
        assert(self.counts() =~= pre.counts().insert(Seq::empty(), self.count as nat));
        assert forall|w: Seq<char>| #[trigger] self.lookup(w) is Some implies self.lookup(w)->0.ok_with(0) by {
            if w.len() > 0 {
                assert(pre.lookup(w) is Some);
            }
        }
        assert forall|w: Seq<char>| #[trigger] self.lookup(w) is Some && w.len() > 0 implies self.lookup(w)->0.count >= 1 by {
            assert(pre.lookup(w) is Some);
        }
    }

    /// List, in lexicographic order, every string `token + v` for which the path `v` ends a
    /// pattern below this node.
    pub fn list_strings(&self) -> (strings: Vec<String>)
        requires
            self.wf(),
        ensures
            lists_patterns(strings@.map_values(|x: String| x@), *self, token_prefix(*self)),
    {
        let mut strings: Vec<String> = Vec::new();
        let mut buffer: Vec<char> = Vec::new();
        self.list_worker(&mut strings, &mut buffer);
        proof {
            assert(strings@.skip(0) =~= strings@);
            assert(Seq::<char>::empty() + token_prefix(*self) =~= token_prefix(*self));
        }
        strings
    }

    /// Search the tree from this node for a pattern matching the string `s`, and answer the
    /// first one found.
    pub(crate) fn match_string(&self, s: &str, single: bool) -> (r: Option<Vec<char>>)
        requires
            self.wf(),
        ensures
            r is Some == matched_by(self.counts(), s@, single),
            r matches Some(v) ==> ends_pattern_in(self.counts(), v@) && pattern_matches(v@, s@, single),
    {
        let chars = chars_of(s);
        let r = self.match_worker(&chars, 0, single);
        proof {
            lemma_terminal_iff(*self);
            assert(s@.skip(0) =~= s@);
            if matched_by(self.counts(), s@, single) {
                let w = choose|w: Seq<char>| #[trigger] ends_pattern_in(self.counts(), w) && pattern_matches(w, s@, single);
                assert(self.terminal_at(w));
            }
        }
        r
    }
}

/// A collection of glob patterns stored as a tree of characters with reference counts.
pub struct GlobTree {
    root: Node,
    inserted: u64,
}

impl View for GlobTree {
    type V = Map<Seq<char>, nat>;

    /// The reference counts of the nodes of the tree, keyed by path: each node counts the
    /// patterns that pass through it.
    closed spec fn view(&self) -> Map<Seq<char>, nat> {
        self.root.counts()
    }
}

/// Two nodes hold the same tree: at each path both have a node or neither has, and the two
/// nodes there agree in token, count and child keys.
pub closed spec fn same_tree(a: Node, b: Node) -> bool {
    forall|w: Seq<char>|
        #![trigger a.lookup(w)]
        #![trigger b.lookup(w)]
        (a.lookup(w) is Some <==> b.lookup(w) is Some) && (a.lookup(w) is Some ==> {
            let (x, y) = (a.lookup(w)->0, b.lookup(w)->0);
            &&& x.token == y.token
            &&& x.count == y.count
            &&& x.children@.dom() == y.children@.dom()
        })
}

/// Nodes that agree in token, count and child keys, and whose children hold the same trees,
/// hold the same tree.
proof fn lemma_same_tree_compose(a: Node, b: Node)
    requires
        a.token == b.token,
        a.count == b.count,
        a.children@.dom() == b.children@.dom(),
        forall|k: u32| #[trigger] a.children@.contains_key(k) ==> same_tree(a.children@[k], b.children@[k]),
    ensures
        same_tree(a, b),
{
    assert forall|w: Seq<char>| #![trigger a.lookup(w)] #![trigger b.lookup(w)]
        (a.lookup(w) is Some <==> b.lookup(w) is Some) && (a.lookup(w) is Some ==> {
            let (x, y) = (a.lookup(w)->0, b.lookup(w)->0);
            &&& x.token == y.token
            &&& x.count == y.count
            &&& x.children@.dom() == y.children@.dom()
        }) by {
        if w.len() > 0 {
            let k = w[0] as u32;
            if a.children@.contains_key(k) {
                assert(same_tree(a.children@[k], b.children@[k]));
                let rest = w.drop_first();
                assert(a.children@[k].lookup(rest) is Some <==> b.children@[k].lookup(rest) is Some);
            }
        }
    }
}

/// The children at key `k` of the nodes at path `w` of two trees that are the same agree in
/// token and count, when the first tree is well formed.
proof fn lemma_same_tree_child(a: Node, b: Node, w: Seq<char>, k: u32)
    requires
        same_tree(a, b),
        a.wf(),
        a.lookup(w) is Some,
        a.lookup(w)->0.children@.contains_key(k),
    ensures
        b.lookup(w) is Some,
        b.lookup(w)->0.children@.contains_key(k),
        b.lookup(w)->0.children@[k].token == a.lookup(w)->0.children@[k].token,
        b.lookup(w)->0.children@[k].count == a.lookup(w)->0.children@[k].count,
{
    let x = a.lookup(w)->0;
    let y = b.lookup(w)->0;
    assert(x.ok_with(0));
    let c = x.children@[k].token->0;
    assert(c as u32 == k);
    let v = w + seq![c];
    lemma_lookup_concat(a, w, seq![c]);
    lemma_lookup_concat(b, w, seq![c]);
    assert(seq![c] + Seq::<char>::empty() =~= seq![c]);
    lemma_terminal_at_child(x, c, Seq::<char>::empty());
    lemma_terminal_at_child(y, c, Seq::<char>::empty());
    assert(x.children@[k].lookup(Seq::empty()) == Some(x.children@[k]));
    assert(y.children@.contains_key(k));
    assert(y.children@[k].lookup(Seq::empty()) == Some(y.children@[k]));
    assert(x.lookup(seq![c]) == Some(x.children@[k]));
    assert(y.lookup(seq![c]) == Some(y.children@[k]));
    assert(a.lookup(v) is Some);
}

/// Two trees that are the same have the same counts, and the second is well formed when
/// the first is.
proof fn lemma_same_tree_props(a: Node, b: Node)
    requires
        same_tree(a, b),
        a.wf(),
    ensures
        a.counts() == b.counts(),
        b.wf(),
        b.token == a.token,
{
    assert(a.lookup(Seq::empty()) == Some(a));
    assert(b.lookup(Seq::empty()) == Some(b));
    assert(a.counts() =~= b.counts());
    assert forall|w: Seq<char>| #[trigger] b.lookup(w) is Some implies b.lookup(w)->0.ok_with(0) by {
        let x = a.lookup(w)->0;
        let y = b.lookup(w)->0;
        assert(a.lookup(w) is Some);
        assert(x.ok_with(0));
        assert forall|k: u32| #[trigger] y.children@.contains_key(k) implies (y.children@[k].token matches Some(c) && c as u32 == k) by {
            assert(x.children@.contains_key(k));
            lemma_same_tree_child(a, b, w, k);
        }
        vstd::std_specs::btree::axiom_btree_map_view_finite_dom(x.children);
        assert forall|k: u32| x.children@.dom().contains(k) implies x.children@[k].count == y.children@[k].count by {
            lemma_same_tree_child(a, b, w, k);
        }
        lemma_fold_congruent(x.children@, y.children@, x.children@.dom());
    }
    assert forall|w: Seq<char>| #[trigger] b.lookup(w) is Some && w.len() > 0 implies b.lookup(w)->0.count >= 1 by {
        assert(a.lookup(w) is Some);
    }
}

impl Node {
    /// A copy of this node and of everything below it.
    fn deep_copy(&self) -> (r: Node)
        ensures
            same_tree(*self, r),
        decreases self,
    {
        let ghost m = self.children@;
        let mut children: BTreeMap<u32, Node> = BTreeMap::new();
        let it = self.children.iter();
        let ghost v = it.remaining();
        proof {
            vstd::std_specs::btree::axiom_spec_btree_map_iter(&self.children);
        }
        for item in iter: it
            invariant
                iter.seq() == v,
                m == self.children@,
                forall|i: int| 0 <= i < v.len() ==> #[trigger] m.contains_key(*v[i].0) && m[*v[i].0] == *v[i].1,
                forall|k: u32| #[trigger] m.contains_key(k) ==> v.contains((&k, &m[k])),
                forall|k: u32| #[trigger] children@.contains_key(k) <==> exists|i: int| 0 <= i < iter.index() && *v[i].0 == k,
                forall|k: u32| #[trigger] children@.contains_key(k) ==> m.contains_key(k) && same_tree(m[k], children@[k]),
        {
            let ghost idx = iter.index();
            let (key, child) = item;
            proof {
                assert(m.contains_key(*v[idx].0));
                assert(*key == *v[idx].0);
                assert(*child == m[*key]);
                assert(decreases_to!(self.children => self.children@));
                assert(decreases_to!(m => m[*key]));
            }
            let copy = child.deep_copy();
            let ghost before = children@;
            children.insert(*key, copy);
            proof {
                assert forall|k2: u32| #[trigger] children@.contains_key(k2) implies m.contains_key(k2) && same_tree(m[k2], children@[k2]) by {
                    if k2 != *key {
                        assert(before.contains_key(k2));
                    }
                }
                assert forall|k2: u32| #[trigger] children@.contains_key(k2) <==> exists|i: int| 0 <= i < idx + 1 && *v[i].0 == k2 by {
                    if k2 == *key {
                        assert(*v[idx].0 == k2);
                    } else if children@.contains_key(k2) {
                        assert(before.contains_key(k2));
                    } else if exists|i: int| 0 <= i < idx + 1 && *v[i].0 == k2 {
                        let i = choose|i: int| 0 <= i < idx + 1 && *v[i].0 == k2;
                        assert(i < idx);
                        assert(before.contains_key(k2));
                    }
                }
            }
        }
        proof {
            assert forall|k: u32| #[trigger] children@.dom().contains(k) == m.dom().contains(k) by {
                if m.contains_key(k) {
                    assert(v.contains((&k, &m[k])));
                    let i = choose|i: int| 0 <= i < v.len() && v[i] == (&k, &m[k]);
                    assert(*v[i].0 == k);
                }
                if children@.contains_key(k) {
                    let i = choose|i: int| 0 <= i < v.len() && *v[i].0 == k;
                    assert(m.contains_key(*v[i].0));
                }
            }
            assert(children@.dom() =~= m.dom());
        }
        let r = Node { token: self.token, children, count: self.count };
        proof {
            lemma_same_tree_compose(*self, r);
        }
        r
    }
}

impl Clone for Node {
    /// A copy of the node and of everything below it: a well-formed node gives a well-formed
    /// copy with the same token and the same counts.
    fn clone(&self) -> (r: Node)
        ensures
            self.wf() ==> r.wf() && r.counts() == self.counts() && r.spec_token() == self.spec_token(),
    {
        let r = self.deep_copy();
        proof {
            if self.wf() {
                lemma_same_tree_props(*self, r);
            }
        }
        r
    }
}

impl Clone for GlobTree {
    /// A copy of the tree, holding the same patterns.
    fn clone(&self) -> (t: GlobTree)
        ensures
            t@ == self@,
            t.insertions() == self.insertions(),
    {
        proof { use_type_invariant(self); }
        let root = self.root.deep_copy();
        proof { lemma_same_tree_props(self.root, root); }
        GlobTree { root, inserted: self.inserted }
    }
}

impl Default for GlobTree {
    /// An empty tree, as `new` makes it.
    fn default() -> (t: GlobTree)
        ensures
            t@ == Map::<Seq<char>, nat>::empty().insert(Seq::empty(), 0),
            t.insertions() == 0,
    {
        GlobTree::new()
    }
}

/// Some pattern stored below `prefix` matches `s` from position `from` with the part of it
/// that follows `prefix`.
pub open spec fn matched_below(m: Map<Seq<char>, nat>, prefix: Seq<char>, s: Seq<char>, from: int, single: bool) -> bool {
    exists|v: Seq<char>| #[trigger] ends_pattern_in(m, prefix + v) && pattern_matches(v, s.skip(from), single)
}

impl GlobTree {
    #[verifier::type_invariant]
    closed spec fn inv(self) -> bool {
        &&& self.root.wf()
        &&& self.root.token is None
        &&& no_excess_all(self.root.counts())
        &&& counts_bounded(self.root.counts(), self.inserted as nat)
    }

    /// The path `w` ends a pattern of the tree: its node exists and its children are
    /// referenced fewer times than itself.
    pub open spec fn ends_pattern(self, w: Seq<char>) -> bool {
        ends_pattern_in(self@, w)
    }

    /// The number of insertions so far.
    pub closed spec fn insertions(self) -> nat {
        self.inserted as nat
    }

    /// No counter of the tree overflows when a pattern is inserted: every insertion so far
    /// raised each counter by at most one.
    pub open spec fn can_insert(self) -> bool {
        self.insertions() < u64::MAX
    }

    /// Whether a pattern can be inserted without a counter overflowing.
    pub fn has_room(&self) -> (r: bool)
        ensures
            r == self.can_insert(),
            valid_counts(self@),
            no_excess_all(self@),
    {
        proof {
            use_type_invariant(&*self);
            lemma_counts_valid(self.root);
        }
        self.inserted < u64::MAX
    }

    /// Create a new, empty tree
    pub fn new() -> (t: GlobTree)
        ensures
            t@ == Map::<Seq<char>, nat>::empty().insert(Seq::empty(), 0),
            t.insertions() == 0,
            valid_counts(t@),
            no_excess_all(t@),
    {
        let root = empty_root();
        proof {
            lemma_counts_valid(root);
            lemma_lookup_empty(root);
            lemma_total_from_counts(root, Seq::empty());
        }
        GlobTree { root, inserted: 0 }
    }

    /// Add a pattern to the tree: every node along the pattern, the root included, gains a
    /// reference, and missing nodes are created.
    pub fn insert(&mut self, pattern: &str)
        requires
            old(self).can_insert(),
        ensures
            final(self)@ == counts_after_add(old(self)@, pattern@),
            final(self).insertions() == old(self).insertions() + 1,
            valid_counts(final(self)@),
            no_excess_all(final(self)@),
    {
        proof {
            use_type_invariant(&*self);
            lemma_counts_valid(self.root);
            lemma_add_counts(self.root.counts(), pattern@);
            lemma_add_bounded(self.root.counts(), pattern@, self.inserted as nat);
            lemma_room_from_bound(self.root, self.inserted as nat, 1);
            lemma_add_is_insert_pub(self.root.counts(), pattern@);
            lemma_lookup_empty(self.root);
        }
        let chars = chars_of(pattern);
        let inserted = self.inserted;
        let mut root = empty_root();
        proof {
            lemma_lookup_empty(root);
            lemma_total_from_counts(root, Seq::empty());
            lemma_counts_valid(root);
        }
        std::mem::swap(&mut root, &mut self.root);
        let ghost before = root.counts();
        root.insert_path_from_start(&chars);
        proof {
            lemma_lookup_empty(root);
            assert(root.counts()[Seq::empty()] == before[Seq::empty()]) by {
                assert(counts_after_insert(before, chars@)[Seq::empty()] == before[Seq::empty()]);
            }
            assert(root.spec_count() == before[Seq::empty()]);
        }
        root.increment_count();
        *self = GlobTree { root, inserted: inserted + 1 };
    }

    /// Search the tree for a pattern matching `s`, with `?` a wildcard when `single` holds,
    /// and answer the first one found.
    pub(crate) fn find_with(&self, s: &str, single: bool) -> (r: Option<Vec<char>>)
        ensures
            r is Some == matched_by(self@, s@, single),
            r matches Some(v) ==> ends_pattern_in(self@, v@) && pattern_matches(v@, s@, single),
    {
        proof { use_type_invariant(&*self); }
        self.root.match_string(s, single)
    }

    /// Search the patterns that start with `prefix` for one whose rest matches `s` from
    /// position `from`.
    pub(crate) fn find_below(&self, prefix: &Vec<char>, s: &Vec<char>, from: usize, single: bool) -> (r: bool)
        requires
            from <= s@.len(),
        ensures
            r == matched_below(self@, prefix@, s@, from as int, single),
    {
        proof { use_type_invariant(&*self); lemma_terminal_iff(self.root); }
        match self.root.find_from_start(prefix) {
            Some(node) => {
                proof {
                    lemma_lookup_node_wf(self.root, prefix@);
                    assert forall|v: Seq<char>| #[trigger] node.terminal_at(v) == ends_pattern_in(self@, prefix@ + v) by {
                        lemma_lookup_concat(self.root, prefix@, v);
                        lemma_terminal_at_lookup(self.root, prefix@ + v);
                        lemma_terminal_at_lookup(*node, v);
                    }
                }
                let r = node.match_worker(s, from, single).is_some();
                proof {
                    if r {
                        let v = choose|v: Seq<char>| #[trigger] node.terminal_at(v) && pattern_matches(v, s@.skip(from as int), single);
                        assert(ends_pattern_in(self@, prefix@ + v));
                    }
                    if matched_below(self@, prefix@, s@, from as int, single) {
                        let v = choose|v: Seq<char>| #[trigger] ends_pattern_in(self@, prefix@ + v) && pattern_matches(v, s@.skip(from as int), single);
                        assert(node.terminal_at(v));
                    }
                }
                r
            },
            None => {
                proof {
                    assert forall|v: Seq<char>| !#[trigger] ends_pattern_in(self@, prefix@ + v) by {
                        lemma_lookup_concat(self.root, prefix@, v);
                        lemma_counts_has(self.root, prefix@ + v);
                    }
                }
                false
            },
        }
    }

    /// Check if a string is matched by a pattern in this tree
    pub fn check(&self, s: &str) -> (r: bool)
        ensures
            r == matched_by(self@, s@, true),
    {
        self.find_with(s, true).is_some()
    }

    /// Find a pattern of the tree that matches `s`, when there is one; which of several
    /// matching patterns is found is left open.
    pub fn find_match(&self, s: &str) -> (r: Option<String>)
        ensures
            r is Some == matched_by(self@, s@, true),
            r matches Some(p) ==> self.ends_pattern(p@) && glob_matches(p@, s@),
    {
        match self.find_with(s, true) {
            Some(v) => Some(string_from_chars(&v)),
            None => None,
        }
    }

    /// Returns true if tree contains pattern
    pub fn contains(&self, pattern: &str) -> (r: bool)
        ensures
            r == self.ends_pattern(pattern@),
            valid_counts(self@),
            no_excess_all(self@),
    {
        proof { use_type_invariant(&*self); lemma_terminal_iff(self.root); lemma_counts_valid(self.root); }
        let chars = chars_of(pattern);
        match self.root.find_from_start(&chars) {
            Some(node) => {
                proof {
                    lemma_lookup_node_wf(self.root, pattern@);
                    lemma_terminal_at_lookup(self.root, pattern@);
                }
                node.is_terminal()
            },
            None => {
                proof { lemma_terminal_at_lookup(self.root, pattern@); }
                false
            },
        }
    }

    /// List all patterns in the tree, in lexicographic order
    pub fn list(&self) -> (patterns: Vec<String>)
        ensures
            forall|i: int, j: int| 0 <= i < j < patterns@.len() ==> lex_lt(#[trigger] patterns@[i]@, #[trigger] patterns@[j]@),
            forall|x: Seq<char>| #[trigger] string_views(patterns@).contains(x) <==> self.ends_pattern(x),
    {
        proof { use_type_invariant(&*self); lemma_terminal_iff(self.root); }
        let r = self.root.list_strings();
        proof {
            let out = r@.map_values(|s: String| s@);
            assert(out == string_views(r@));
            assert forall|i: int, j: int| 0 <= i < j < r@.len() implies lex_lt(#[trigger] r@[i]@, #[trigger] r@[j]@) by {
                assert(out[i] == r@[i]@ && out[j] == r@[j]@);
            }
            assert forall|x: Seq<char>| #[trigger] out.contains(x) <==> self.ends_pattern(x) by {
                if out.contains(x) {
                    let v = choose|v: Seq<char>| #[trigger] self.root.terminal_at(v) && x == Seq::<char>::empty() + v;
                    assert(Seq::<char>::empty() + v =~= v);
                }
                if self.ends_pattern(x) {
                    assert(Seq::<char>::empty() + x =~= x);
                    assert(self.root.terminal_at(x));
                }
            }
        }
        r
    }

    /// Remove a pattern from the tree. Walking down the pattern, the first node referenced
    /// only once is deleted with everything below it; the nodes above it, the root included,
    /// lose a reference. Fails, leaving the tree unchanged, when the tree does not contain
    /// the pattern.
    pub fn remove(&mut self, pattern: &str) -> (r: Result<(), &'static str>)
        ensures
            old(self).ends_pattern(pattern@) ==> r is Ok && final(self)@ == counts_after_take(old(self)@, pattern@),
            !old(self).ends_pattern(pattern@) ==> r == Err::<(), &'static str>("Not found") && final(self)@ == old(self)@,
            final(self).insertions() == old(self).insertions(),
            valid_counts(final(self)@),
            no_excess_all(final(self)@),
    {
        proof {
            use_type_invariant(&*self);
            lemma_counts_valid(self.root);
        }
        if !self.contains(pattern) {
            return Err("Not found");
        }
        proof {
            use_type_invariant(&*self);
            lemma_terminal_iff(self.root);
            lemma_terminal_at_lookup(self.root, pattern@);
            lemma_take_counts(self.root.counts(), pattern@);
            lemma_remove_bounded(self.root.counts(), pattern@, self.inserted as nat);
            lemma_lookup_empty(self.root);
        }
        let chars = chars_of(pattern);
        let inserted = self.inserted;
        let mut root = empty_root();
        proof {
            lemma_lookup_empty(root);
            lemma_total_from_counts(root, Seq::empty());
            lemma_counts_valid(root);
        }
        std::mem::swap(&mut root, &mut self.root);
        let ghost before = root.counts();
        root.remove_path_from_start(&chars);
        proof {
            lemma_lookup_empty(root);
            assert(root.spec_count() == before[Seq::empty()]);
            assert(before[Seq::empty()] >= 1);
        }
        root.decrement_count();
        proof {
            let t = counts_after_take(before, chars@);
            assert(root.counts() =~= t);
            lemma_take_bounded(before, chars@, inserted as nat);
        }
        *self = GlobTree { root, inserted };
        Ok(())
    }

    /// The tree holds no pattern: only its root, referenced by nothing.
    pub fn is_empty(&self) -> (r: bool)
        ensures
            r == (self@ == Map::<Seq<char>, nat>::empty().insert(Seq::empty(), 0)),
    {
        proof { use_type_invariant(&*self); lemma_terminal_iff(self.root); lemma_lookup_empty(self.root); }
        let no_children = self.root.children.is_empty();
        let r = no_children && self.root.count == 0;
        proof {
            let e = Map::<Seq<char>, nat>::empty().insert(Seq::empty(), 0);
            assert(self@.contains_key(Seq::empty()) && self@[Seq::empty()] == self.root.count as nat);
            if self@ == e {
                assert(self.root.count == 0);
            }
            if no_children {
                assert forall|w: Seq<char>| #[trigger] self@.contains_key(w) implies w == Seq::<char>::empty() by {
                    if w.len() > 0 {
                        assert(!self.root.children@.contains_key(w[0] as u32));
                    } else {
                        assert(w =~= Seq::<char>::empty());
                    }
                }
                if self.root.count == 0 {
                    assert(self@ =~= e);
                }
            } else {
                let k = self.root.children@.dom().choose();
                assert(self.root.children@.contains_key(k));
                let ch = self.root.children@[k];
                assert(self.root.lookup(Seq::empty())->0.ok_with(0));
                let c = ch.token->0;
                lemma_terminal_at_child(self.root, c, Seq::empty());
                assert(seq![c] + Seq::<char>::empty() =~= seq![c]);
                assert(ch.lookup(Seq::empty()) == Some(ch));
                assert(self@.contains_key(seq![c]));
                assert(!e.contains_key(seq![c]));
            }
        }
        r
    }
}

/// A root without token, children or references.
fn empty_root() -> (root: Node)
    ensures
        root.wf(),
        root.token is None,
        root.counts() == Map::<Seq<char>, nat>::empty().insert(Seq::empty(), 0),
        root.room_for(2),
        root.child_total() == 0,
{
    let root = Node { token: None, children: BTreeMap::new(), count: 0 };
    proof {
        lemma_sum_empty(root.children@);
        assert forall|w: Seq<char>| #[trigger] root.lookup(w) is Some implies w.len() == 0 && root.lookup(w) == Some(root) by {}
        assert(root.lookup(Seq::empty()) == Some(root));
        assert forall|w: Seq<char>| #[trigger] root.counts().contains_key(w) <==> w == Seq::<char>::empty() by {
            if w.len() == 0 {
                assert(w =~= Seq::<char>::empty());
            }
        }
        assert(root.counts() =~= Map::<Seq<char>, nat>::empty().insert(Seq::empty(), 0));
    }
    root
}


/// Following `a` then `b` from a node reaches the node at `a + b`.
pub proof fn lemma_lookup_concat(n: Node, a: Seq<char>, b: Seq<char>)
    ensures
        n.lookup(a + b) == (match n.lookup(a) {
            Some(m) => m.lookup(b),
            None => None,
        }),
    decreases a.len(),
{
    if a.len() > 0 {
        assert((a + b).drop_first() =~= a.drop_first() + b);
        assert((a + b)[0] == a[0]);
        if n.children@.contains_key(a[0] as u32) {
            lemma_lookup_concat(n.children@[a[0] as u32], a.drop_first(), b);
        }
    } else {
        assert(a + b =~= b);
    }
}

/// Every node below a well-formed node is well formed.
pub proof fn lemma_lookup_node_wf(n: Node, w: Seq<char>)
    requires
        n.wf(),
        n.lookup(w) is Some,
    ensures
        n.lookup(w)->0.wf(),
        n.lookup(w)->0.child_total() <= u64::MAX,
        w.len() > 0 ==> n.lookup(w)->0.spec_token() == Some(w.last()),
{
    let m = n.lookup(w)->0;
    assert forall|v: Seq<char>| #[trigger] m.lookup(v) == n.lookup(w + v) by {
        lemma_lookup_concat(n, w, v);
    }
    assert forall|v: Seq<char>| #[trigger] m.lookup(v) is Some implies m.lookup(v)->0.ok_with(0) by {
        assert(n.lookup(w + v) is Some);
    }
    assert forall|v: Seq<char>| #[trigger] m.lookup(v) is Some && v.len() > 0 implies m.lookup(v)->0.count >= 1 by {
        assert(n.lookup(w + v) is Some);
        assert((w + v).len() > 0);
    }
    assert(m.lookup(Seq::empty()) == Some(m));
    if w.len() > 0 {
        let pw = w.drop_last();
        let c = w.last();
        assert(pw + seq![c] =~= w);
        lemma_lookup_concat(n, pw, seq![c]);
        let pn = n.lookup(pw)->0;
        assert(pn.ok_with(0));
        lemma_terminal_at_child(pn, c, Seq::empty());
        assert(seq![c] + Seq::<char>::empty() =~= seq![c]);
        let ch = pn.children@[c as u32];
        assert(ch.lookup(Seq::empty()) == Some(ch));
        assert(ch.token matches Some(cc) && cc as u32 == c as u32);
        lemma_char_key_injective(ch.token->0, c);
    }
}

/// Whether a path ends a pattern, in terms of the node at that path.
pub proof fn lemma_terminal_at_lookup(n: Node, w: Seq<char>)
    ensures
        n.terminal_at(w) == (n.lookup(w) matches Some(m) && m.child_total() < m.spec_count()),
{
}

impl Node {
    /// The child of this node whose token is `c`, if any.
    pub fn get_child(&self, c: char) -> (r: Option<&Node>)
        ensures
            match r {
                Some(n) => self.lookup(seq![c]) == Some(*n),
                None => self.lookup(seq![c]) is None,
            },
    {
        proof {
            lemma_terminal_at_child(*self, c, Seq::empty());
            assert(seq![c] + Seq::<char>::empty() =~= seq![c]);
            if self.children@.contains_key(c as u32) {
                let ch = self.children@[c as u32];
                assert(ch.lookup(Seq::empty()) == Some(ch));
            }
        }
        self.children.get(&(c as u32))
    }

    /// This node has no children.
    pub fn has_no_children(&self) -> (r: bool)
        requires
            self.wf(),
        ensures
            r == (forall|c: char| #[trigger] self.lookup(seq![c]) is None),
    {
        let r = self.children.is_empty();
        proof {
            if r {
                assert forall|c: char| #[trigger] self.lookup(seq![c]) is None by {
                    assert(!self.children@.contains_key(c as u32));
                }
            } else {
                let k = self.children@.dom().choose();
                assert(self.children@.contains_key(k));
                let ch = self.children@[k];
                assert(self.lookup(Seq::empty()) == Some(*self));
                assert(self.lookup(Seq::empty())->0.ok_with(0));
                let c = ch.token->0;
                assert(c as u32 == k);
                lemma_terminal_at_child(*self, c, Seq::empty());
                assert(seq![c] + Seq::<char>::empty() =~= seq![c]);
                assert(ch.lookup(Seq::empty()) == Some(ch));
                assert(self.lookup(seq![c]) is Some);
            }
        }
        r
    }
}


/// The empty path leads to the node itself.
pub proof fn lemma_lookup_empty(n: Node)
    ensures
        n.lookup(Seq::empty()) == Some(n),
{
}

/// A path is in the counts exactly when its node exists.
pub proof fn lemma_counts_has(n: Node, w: Seq<char>)
    ensures
        n.counts().contains_key(w) == (n.lookup(w) is Some),
{
}

impl Node {
    /// Add the pattern `chars` below this node (see `insert_path`).
    pub(crate) fn insert_path_from_start(&mut self, chars: &Vec<char>)
        requires
            old(self).room_for(1),
            old(self).wf(),
        ensures
            final(self).counts() == counts_after_insert(old(self).counts(), chars@),
            final(self).wf(),
            final(self).spec_token() == old(self).spec_token(),
            final(self).spec_count() == old(self).spec_count(),
    {
        proof {
            assert(chars@.skip(0) =~= chars@);
        }
        self.insert_path(chars, 0);
    }

    /// The node at path `chars` below this node, if any.
    pub(crate) fn find_from_start(&self, chars: &Vec<char>) -> (r: Option<&Node>)
        ensures
            match r {
                Some(n) => self.lookup(chars@) == Some(*n),
                None => self.lookup(chars@) is None,
            },
    {
        proof {
            assert(chars@.skip(0) =~= chars@);
        }
        self.find(chars, 0)
    }

    /// Remove the pattern along `chars` below this node (see `remove_path`).
    pub(crate) fn remove_path_from_start(&mut self, chars: &Vec<char>)
        requires
            old(self).wf(),
            old(self).lookup(chars@) is Some,
        ensures
            final(self).counts() == counts_after_remove(old(self).counts(), chars@),
            final(self).wf(),
            final(self).spec_token() == old(self).spec_token(),
            final(self).spec_count() == old(self).spec_count(),
    {
        proof {
            assert(chars@.skip(0) =~= chars@);
        }
        self.remove_path(chars, 0);
    }
}


/// The sum of `g` over a finite set of keys.
pub open spec fn sum_over(s: Set<u32>, g: spec_fn(u32) -> nat) -> nat {
    s.fold(0nat, |acc: nat, k: u32| (acc + g(k)) as nat)
}

proof fn lemma_sum_over_insert(s: Set<u32>, g: spec_fn(u32) -> nat, k: u32)
    requires
        s.finite(),
        !s.contains(k),
    ensures
        sum_over(s.insert(k), g) == sum_over(s, g) + g(k),
{
    let f = |acc: nat, k: u32| (acc + g(k)) as nat;
    assert(vstd::set::fold::is_fun_commutative(f));
    vstd::set::fold::lemma_fold_insert(s, 0nat, f, k);
}

proof fn lemma_sum_over_empty(g: spec_fn(u32) -> nat)
    ensures
        sum_over(Set::empty(), g) == 0,
{
    vstd::set::fold::lemma_fold_empty(0nat, |acc: nat, k: u32| (acc + g(k)) as nat);
}

/// Sums of two functions that agree on a finite set are equal.
proof fn lemma_sum_over_congruent(s: Set<u32>, g1: spec_fn(u32) -> nat, g2: spec_fn(u32) -> nat)
    requires
        s.finite(),
        forall|k: u32| s.contains(k) ==> g1(k) == g2(k),
    ensures
        sum_over(s, g1) == sum_over(s, g2),
    decreases s.len(),
{
    if s.len() == 0 {
        assert(s =~= Set::empty());
        lemma_sum_over_empty(g1);
        lemma_sum_over_empty(g2);
    } else {
        let k = s.choose();
        assert(s.contains(k));
        let r = s.remove(k);
        assert(r.insert(k) =~= s);
        lemma_sum_over_congruent(r, g1, g2);
        lemma_sum_over_insert(r, g1, k);
        lemma_sum_over_insert(r, g2, k);
    }
}

/// Removing a key from the summed set takes out its term.
proof fn lemma_sum_over_remove(s: Set<u32>, g: spec_fn(u32) -> nat, k: u32)
    requires
        s.finite(),
        s.contains(k),
    ensures
        sum_over(s, g) == sum_over(s.remove(k), g) + g(k),
{
    assert(s.remove(k).insert(k) =~= s);
    lemma_sum_over_insert(s.remove(k), g, k);
}

proof fn lemma_sum_counts_over(m: Map<u32, Node>)
    ensures
        sum_counts(m) == sum_over(m.dom(), |k: u32| m[k].count as nat),
{
    let g = |k: u32| m[k].count as nat;
    assert(count_adder(m) =~= |acc: nat, k: u32| (acc + g(k)) as nat);
}

/// The keys of the children of the node at path `w` in a map of counts.
pub open spec fn child_keys(m: Map<Seq<char>, nat>, w: Seq<char>) -> Set<u32> {
    Set::new(|k: u32| (k as char) as u32 == k && m.contains_key(w.push(k as char)))
}

/// The count of the child with key `k` of the node at path `w`.
pub open spec fn child_weight(m: Map<Seq<char>, nat>, w: Seq<char>) -> spec_fn(u32) -> nat {
    |k: u32| m[w.push(k as char)]
}

/// The sum of the counts of the children of the node at path `w`.
pub open spec fn children_total(m: Map<Seq<char>, nat>, w: Seq<char>) -> nat {
    sum_over(child_keys(m, w), child_weight(m, w))
}

/// The node at path `w` ends a pattern: it exists and its children are referenced fewer
/// times than itself.
pub open spec fn ends_pattern_in(m: Map<Seq<char>, nat>, w: Seq<char>) -> bool {
    m.contains_key(w) && children_total(m, w) < m[w]
}

/// The child total of a node in a well-formed tree is the sum of the counts of its
/// children's paths.
pub proof fn lemma_total_from_counts(n: Node, w: Seq<char>)
    requires
        n.wf(),
        n.lookup(w) is Some,
    ensures
        n.lookup(w)->0.child_total() == children_total(n.counts(), w),
        n.terminal_at(w) == ends_pattern_in(n.counts(), w),
        child_keys(n.counts(), w).finite(),
{
    let x = n.lookup(w)->0;
    let m = n.counts();
    assert(x.ok_with(0));
    assert forall|k: u32| #[trigger] x.children@.contains_key(k) == child_keys(m, w).contains(k) by {
        if x.children@.contains_key(k) {
            let c = x.children@[k].token->0;
            assert(c as u32 == k);
            vstd::utf8::char_u32_cast(c, k);
            lemma_lookup_concat(n, w, seq![c]);
            lemma_terminal_at_child(x, c, Seq::empty());
            assert(seq![c] + Seq::<char>::empty() =~= seq![c]);
            assert(w + seq![c] =~= w.push(c));
            let ch = x.children@[k];
            assert(ch.lookup(Seq::empty()) == Some(ch));
        }
        if child_keys(m, w).contains(k) {
            let c = k as char;
            lemma_lookup_concat(n, w, seq![c]);
            lemma_terminal_at_child(x, c, Seq::empty());
            assert(seq![c] + Seq::<char>::empty() =~= seq![c]);
            assert(w + seq![c] =~= w.push(c));
        }
    }
    assert(x.children@.dom() =~= child_keys(m, w));
    assert forall|k: u32| x.children@.dom().contains(k) implies (|k: u32| x.children@[k].count as nat)(k) == child_weight(m, w)(k) by {
        let c = x.children@[k].token->0;
        vstd::utf8::char_u32_cast(c, k);
        lemma_lookup_concat(n, w, seq![c]);
        lemma_terminal_at_child(x, c, Seq::empty());
        assert(seq![c] + Seq::<char>::empty() =~= seq![c]);
        assert(w + seq![c] =~= w.push(c));
        let ch = x.children@[k];
        assert(ch.lookup(Seq::empty()) == Some(ch));
    }
    lemma_sum_counts_over(x.children@);
    lemma_sum_over_congruent(x.children@.dom(), |k: u32| x.children@[k].count as nat, child_weight(m, w));
}


/// In a well-formed tree, a path ends a pattern exactly when its counts say so.
pub proof fn lemma_terminal_iff(n: Node)
    requires
        n.wf(),
    ensures
        forall|w: Seq<char>| #[trigger] n.terminal_at(w) == ends_pattern_in(n.counts(), w),
{
    assert forall|w: Seq<char>| #[trigger] n.terminal_at(w) == ends_pattern_in(n.counts(), w) by {
        if n.lookup(w) is Some {
            lemma_total_from_counts(n, w);
        }
    }
}


/// A map of counts as a tree of patterns holds it: it contains the root path, every prefix
/// of a path it contains, a positive count at every nonempty path, and finitely many
/// children at every path.
pub open spec fn valid_counts(m: Map<Seq<char>, nat>) -> bool {
    &&& m.contains_key(Seq::empty())
    &&& forall|w: Seq<char>, i: int| m.contains_key(w) && 0 <= i <= w.len() ==> #[trigger] m.contains_key(w.take(i))
    &&& forall|w: Seq<char>| #[trigger] m.contains_key(w) && w.len() > 0 ==> m[w] >= 1
    &&& forall|w: Seq<char>| #[trigger] m.contains_key(w) ==> child_keys(m, w).finite()
}

/// The counts of a well-formed tree are valid.
pub proof fn lemma_counts_valid(n: Node)
    requires
        n.wf(),
    ensures
        valid_counts(n.counts()),
{
    let m = n.counts();
    assert(n.lookup(Seq::empty()) == Some(n));
    assert forall|w: Seq<char>, i: int| m.contains_key(w) && 0 <= i <= w.len() implies #[trigger] m.contains_key(w.take(i)) by {
        lemma_lookup_prefix(n, w, i);
    }
    assert forall|w: Seq<char>| #[trigger] m.contains_key(w) implies child_keys(m, w).finite() by {
        lemma_total_from_counts(n, w);
    }
}


/// A sum over no keys is zero.
pub proof fn lemma_sum_over_empty_pub(g: spec_fn(u32) -> nat)
    ensures
        sum_over(Set::empty(), g) == 0,
{
    lemma_sum_over_empty(g);
}

/// Sums of two functions that agree on a finite set are equal.
pub proof fn lemma_sum_over_congruent_pub(s: Set<u32>, g1: spec_fn(u32) -> nat, g2: spec_fn(u32) -> nat)
    requires
        s.finite(),
        forall|k: u32| s.contains(k) ==> g1(k) == g2(k),
    ensures
        sum_over(s, g1) == sum_over(s, g2),
{
    lemma_sum_over_congruent(s, g1, g2);
}

/// Adding a key to a summed set adds its term.
pub proof fn lemma_sum_over_insert_pub(s: Set<u32>, g: spec_fn(u32) -> nat, k: u32)
    requires
        s.finite(),
        !s.contains(k),
    ensures
        sum_over(s.insert(k), g) == sum_over(s, g) + g(k),
{
    lemma_sum_over_insert(s, g, k);
}

/// Removing a key from a summed set takes out its term.
pub proof fn lemma_sum_over_remove_pub(s: Set<u32>, g: spec_fn(u32) -> nat, k: u32)
    requires
        s.finite(),
        s.contains(k),
    ensures
        sum_over(s, g) == sum_over(s.remove(k), g) + g(k),
{
    lemma_sum_over_remove(s, g, k);
}


/// A pattern inserted into the tree is then contained in it, and every other pattern stays
/// contained or not as it was.
pub proof fn lemma_insert_then_contains(m: Map<Seq<char>, nat>, p: Seq<char>, q: Seq<char>)
    requires
        valid_counts(m),
        no_excess_all(m),
    ensures
        ends_pattern_in(counts_after_add(m, p), p),
        q != p ==> ends_pattern_in(counts_after_add(m, p), q) == ends_pattern_in(m, q),
{
    lemma_add_counts(m, p);
    crate::pattern_counts::lemma_ends_iff_count(counts_after_add(m, p), p);
    crate::pattern_counts::lemma_ends_iff_count(counts_after_add(m, p), q);
    crate::pattern_counts::lemma_ends_iff_count(m, p);
    crate::pattern_counts::lemma_ends_iff_count(m, q);
    assert(pattern_count(counts_after_add(m, p), p) == pattern_count(m, p) + 1);
    assert(pattern_count(counts_after_add(m, p), q) == pattern_count(m, q) + (if q == p { 1int } else { 0int }));
    assert(pattern_count(m, p) >= 0) by {
        if m.contains_key(p) {
            assert(children_total(m, p) <= m[p]);
        }
    }
}

/// Removing a pattern right after inserting it succeeds and gives back the tree as it was.
pub proof fn lemma_insert_then_remove(m: Map<Seq<char>, nat>, p: Seq<char>)
    requires
        valid_counts(m),
        no_excess_all(m),
    ensures
        ends_pattern_in(counts_after_add(m, p), p),
        counts_after_take(counts_after_add(m, p), p) == m,
{
    lemma_insert_then_contains(m, p, p);
    crate::pattern_counts::lemma_take_undoes_add(m, p);
}

/// Every pattern matches its own text: a wildcard or a single-character wildcard matches
/// itself as one character.
pub proof fn lemma_pattern_matches_itself(p: Seq<char>, single: bool)
    ensures
        pattern_matches(p, p, single),
    decreases p.len(),
{
    if p.len() > 0 {
        lemma_pattern_matches_itself(p.drop_first(), single);
        if p[0] == '*' {
            assert(pattern_matches(p, p.drop_first(), single));
        }
    }
}

/// The counts of a tree after a history of changes made to a new tree, each change a
/// pattern inserted (`true`) or removed (`false`), as `insert` and `remove` make them: a
/// removal of a pattern that the tree does not hold changes nothing.
pub open spec fn replay(ops: Seq<(bool, Seq<char>)>) -> Map<Seq<char>, nat>
    decreases ops.len(),
{
    if ops.len() == 0 {
        Map::<Seq<char>, nat>::empty().insert(Seq::empty(), 0)
    } else {
        let m = replay(ops.drop_last());
        let (insert, p) = ops.last();
        if insert {
            counts_after_add(m, p)
        } else if ends_pattern_in(m, p) {
            counts_after_take(m, p)
        } else {
            m
        }
    }
}

/// How many times `w` was inserted in a history of changes and not removed since: a
/// removal takes one occurrence away, when there is one.
pub open spec fn held(ops: Seq<(bool, Seq<char>)>, w: Seq<char>) -> nat
    decreases ops.len(),
{
    if ops.len() == 0 {
        0
    } else {
        let c = held(ops.drop_last(), w);
        let (insert, p) = ops.last();
        if insert {
            c + (if w == p { 1nat } else { 0nat })
        } else if held(ops.drop_last(), p) > 0 && w == p {
            (c - 1) as nat
        } else {
            c
        }
    }
}

/// After any history of insertions and removals made to a new tree, the tree holds each
/// pattern as many times as it was inserted and not removed since, and a string is matched
/// exactly when some pattern inserted and not removed since matches it.
pub proof fn lemma_history(ops: Seq<(bool, Seq<char>)>)
    ensures
        valid_counts(replay(ops)),
        no_excess_all(replay(ops)),
        forall|w: Seq<char>| #[trigger] pattern_count(replay(ops), w) == held(ops, w),
        forall|w: Seq<char>| #[trigger] ends_pattern_in(replay(ops), w) == (held(ops, w) > 0),
        forall|s: Seq<char>, single: bool| #[trigger] matched_by(replay(ops), s, single)
            == exists|p: Seq<char>| #[trigger] held(ops, p) > 0 && pattern_matches(p, s, single),
    decreases ops.len(),
{
    let m = replay(ops);
    if ops.len() == 0 {
        let e = Map::<Seq<char>, nat>::empty().insert(Seq::<char>::empty(), 0);
        assert(m == e);
        assert forall|w: Seq<char>| #[trigger] e.contains_key(w) implies child_keys(e, w).finite() && children_total(e, w) == 0 by {
            assert(child_keys(e, w) =~= Set::<u32>::empty()) by {
                assert forall|k: u32| !child_keys(e, w).contains(k) by {
                    assert(w.push(k as char).len() > 0);
                }
            }
            lemma_sum_over_empty_pub(child_weight(e, w));
        }
        assert forall|w: Seq<char>, i: int| e.contains_key(w) && 0 <= i <= w.len() implies #[trigger] e.contains_key(w.take(i)) by {
            assert(w.take(i) =~= Seq::<char>::empty());
        }
        assert forall|w: Seq<char>| #[trigger] pattern_count(m, w) == held(ops, w) by {
            if e.contains_key(w) {
                assert(children_total(e, w) == 0);
            }
        }
    } else {
        let prev = ops.drop_last();
        let m0 = replay(prev);
        let (insert, p) = ops.last();
        lemma_history(prev);
        if insert {
            lemma_add_counts(m0, p);
            assert forall|w: Seq<char>| #[trigger] pattern_count(m, w) == held(ops, w) by {
                assert(pattern_count(m0, w) == held(prev, w));
            }
        } else if ends_pattern_in(m0, p) {
            lemma_take_counts(m0, p);
            lemma_take_deletes(m0, p);
            assert(held(prev, p) > 0);
            assert forall|w: Seq<char>| #[trigger] pattern_count(m, w) == held(ops, w) by {
                assert(pattern_count(m0, w) == held(prev, w));
                if !m.contains_key(w) && !m0.contains_key(w) {
                    assert(w != p);
                }
            }
        } else {
            assert(held(prev, p) == 0);
            assert forall|w: Seq<char>| #[trigger] pattern_count(m, w) == held(ops, w) by {
                assert(pattern_count(m0, w) == held(prev, w));
            }
        }
    }
    assert forall|w: Seq<char>| #[trigger] ends_pattern_in(m, w) == (held(ops, w) > 0) by {
        lemma_ends_iff_count(m, w);
        assert(pattern_count(m, w) == held(ops, w));
    }
    assert forall|s: Seq<char>, single: bool| #[trigger] matched_by(m, s, single)
        == exists|p: Seq<char>| #[trigger] held(ops, p) > 0 && pattern_matches(p, s, single) by {
        if matched_by(m, s, single) {
            let w = choose|w: Seq<char>| #[trigger] ends_pattern_in(m, w) && pattern_matches(w, s, single);
            assert(held(ops, w) > 0);
        }
        if exists|p: Seq<char>| #[trigger] held(ops, p) > 0 && pattern_matches(p, s, single) {
            let w = choose|p: Seq<char>| #[trigger] held(ops, p) > 0 && pattern_matches(p, s, single);
            assert(ends_pattern_in(m, w));
        }
    }
}

/// Every pattern that a tree holds is matched by its own text: a tree checks each of its
/// patterns.
pub proof fn lemma_stored_pattern_is_matched(m: Map<Seq<char>, nat>, p: Seq<char>, single: bool)
    requires
        ends_pattern_in(m, p),
    ensures
        matched_by(m, p, single),
{
    lemma_pattern_matches_itself(p, single);
}

/// The pattern made of one wildcard `*` matches every string, the empty one included.
pub proof fn lemma_wildcard_matches_everything(s: Seq<char>, single: bool)
    ensures
        pattern_matches(seq!['*'], s, single),
    decreases s.len(),
{
    let w = seq!['*'];
    assert(w.drop_first() =~= Seq::<char>::empty());
    assert(w[0] == '*');
    if s.len() == 0 {
        assert(pattern_matches(w.drop_first(), s, single));
    } else {
        lemma_wildcard_matches_everything(s.drop_first(), single);
    }
}

/// The pattern made of one `?` matches exactly the strings of one character.
pub proof fn lemma_single_wildcard_matches_one(s: Seq<char>)
    ensures
        glob_matches(seq!['?'], s) == (s.len() == 1),
{
    let w = seq!['?'];
    if s.len() > 0 {
        assert(w.drop_first() =~= Seq::<char>::empty());
        assert(w[0] == '?');
        assert(glob_matches(Seq::<char>::empty(), s.drop_first()) == (s.drop_first().len() == 0));
    }
}


/// A tree whose counts and child totals are all at most `b` has room for an insertion that
/// raises them by `k`, when `b + k` fits in a `u64`.
pub proof fn lemma_room_from_bound(n: Node, b: nat, k: nat)
    requires
        n.wf(),
        counts_bounded(n.counts(), b),
        b + k <= u64::MAX,
    ensures
        n.room_for(k),
{
    let m = n.counts();
    assert(n.lookup(Seq::empty()) == Some(n));
    assert(m.contains_key(Seq::empty()));
    assert forall|w: Seq<char>| #[trigger] n.lookup(w) is Some implies n.lookup(w)->0.room_at(w, k) by {
        lemma_total_from_counts(n, w);
        assert(m.contains_key(w));
        assert(n.lookup(w)->0.ok_with(0));
    }
}

} // verus!
