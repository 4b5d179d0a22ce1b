//! Facts about the reference counts of a pattern tree under insertion and removal, on the
//! maps of counts alone.
use crate::glob_tree::{
    child_keys, child_weight, children_total, counts_after_insert, counts_after_remove,
    ends_pattern_in, lemma_char_key_injective, lemma_sum_over_congruent_pub,
    lemma_sum_over_insert_pub, lemma_sum_over_remove_pub, sum_over, unit_cut, valid_counts,
};
use vstd::prelude::*;

verus! {

/// The length of the shortest prefix of `p`, longer than `j`, that is not in `m`;
/// `p.len() + 1` when every such prefix is in `m`.
pub open spec fn first_absent(m: Map<Seq<char>, nat>, p: Seq<char>, j: int) -> int
    decreases p.len() - j,
{
    if j >= p.len() {
        p.len() + 1int
    } else if !m.contains_key(p.take(j + 1)) {
        j + 1
    } else {
        first_absent(m, p, j + 1)
    }
}

/// Every prefix of `p` between length `j` and the first absent one is present, and the
/// first absent one is not.
pub proof fn lemma_first_absent(m: Map<Seq<char>, nat>, p: Seq<char>, j: int)
    requires
        0 <= j <= p.len(),
    ensures
        j < first_absent(m, p, j) <= p.len() + 1,
        forall|i: int| j < i < first_absent(m, p, j) ==> #[trigger] m.contains_key(p.take(i)),
        first_absent(m, p, j) <= p.len() ==> !m.contains_key(p.take(first_absent(m, p, j))),
    decreases p.len() - j,
{
    if j < p.len() && m.contains_key(p.take(j + 1)) {
        lemma_first_absent(m, p, j + 1);
    }
}

/// In valid counts, no prefix of `p` from the first absent one on is present.
proof fn lemma_absent_from_first(m: Map<Seq<char>, nat>, p: Seq<char>, i: int)
    requires
        valid_counts(m),
        first_absent(m, p, 0) <= i <= p.len(),
    ensures
        !m.contains_key(p.take(i)),
{
    lemma_first_absent(m, p, 0);
    let k = first_absent(m, p, 0);
    if m.contains_key(p.take(i)) {
        assert(m.contains_key(p.take(i).take(k)));
        assert(p.take(i).take(k) =~= p.take(k));
    }
}

/// A path `w` is a prefix of `p` exactly when it is `p.take(w.len())`.
proof fn lemma_prefix_take(w: Seq<char>, p: Seq<char>)
    ensures
        w.is_prefix_of(p) == (w.len() <= p.len() && w == p.take(w.len() as int)),
{
    if w.len() <= p.len() && w == p.take(w.len() as int) {
        assert(w =~= p.subrange(0, w.len() as int));
    }
}

/// After inserting `p`, walking down `p` the first node referenced once is the first node
/// that was missing.
proof fn lemma_cut_after_insert(m: Map<Seq<char>, nat>, p: Seq<char>, j: int)
    requires
        valid_counts(m),
        0 <= j <= p.len(),
        forall|i: int| 0 < i <= j ==> #[trigger] m.contains_key(p.take(i)),
    ensures
        unit_cut(counts_after_insert(m, p), p, j) == first_absent(m, p, j),
    decreases p.len() - j,
{
    let m1 = counts_after_insert(m, p);
    if j < p.len() {
        let w = p.take(j + 1);
        lemma_prefix_take(w, p);
        assert(w.is_prefix_of(p));
        assert(m1.contains_key(w));
        if m.contains_key(w) {
            assert(m[w] >= 1);
            assert(m1[w] >= 2);
            assert forall|i: int| 0 < i <= j + 1 implies #[trigger] m.contains_key(p.take(i)) by {
                if i == j + 1 {
                    assert(p.take(i) == w);
                }
            }
            lemma_cut_after_insert(m, p, j + 1);
        } else {
            assert(first_absent(m, p, j) == j + 1);
            assert(m1[w] == 1);
        }
    }
}

/// Removing a pattern right after inserting it gives back the counts before the insertion.
pub proof fn lemma_remove_undoes_insert(m: Map<Seq<char>, nat>, p: Seq<char>)
    requires
        valid_counts(m),
        p.len() > 0,
    ensures
        counts_after_remove(counts_after_insert(m, p), p) == m,
{
    let m1 = counts_after_insert(m, p);
    let r = counts_after_remove(m1, p);
    assert(p.take(0) =~= Seq::<char>::empty());
    lemma_cut_after_insert(m, p, 0);
    lemma_first_absent(m, p, 0);
    let j = first_absent(m, p, 0);
    assert(unit_cut(m1, p, 0) == j);
    assert forall|w: Seq<char>| #[trigger] r.contains_key(w) == m.contains_key(w) && (r.contains_key(w) ==> r[w] == m[w]) by {
        lemma_prefix_take(w, p);
        if m.contains_key(w) {
            if j <= p.len() && p.take(j).is_prefix_of(w) {
                lemma_prefix_take(p.take(j), w);
                assert(m.contains_key(w.take(j)));
                assert(w.take(j) =~= p.take(j));
            }
            if w.is_prefix_of(p) && w.len() > 0 {
                if w.len() >= j {
                    lemma_absent_from_first(m, p, w.len() as int);
                }
                assert(w.len() < j);
            }
        } else if m1.contains_key(w) {
            assert(w.is_prefix_of(p));
            if w.len() < j {
                if w.len() == 0 {
                    assert(w =~= Seq::<char>::empty());
                }
                assert(m.contains_key(p.take(w.len() as int)));
            }
            assert(j <= w.len() <= p.len());
            lemma_prefix_take(p.take(j), w);
            assert(w.take(j) =~= p.take(j));
            assert(p.take(j).is_prefix_of(w));
        }
    }
    assert(r =~= m);
}

/// The key of a character is a character code.
proof fn lemma_key_of_char(c: char)
    ensures
        ((c as u32) as char) == c,
        (((c as u32) as char) as u32) == c as u32,
{
    vstd::utf8::char_u32_cast(c, c as u32);
}

/// In valid counts, a path outside the map has no children.
proof fn lemma_no_children_outside(m: Map<Seq<char>, nat>, w: Seq<char>)
    requires
        valid_counts(m),
        !m.contains_key(w),
    ensures
        child_keys(m, w) =~= Set::<u32>::empty(),
{
    assert forall|k: u32| !child_keys(m, w).contains(k) by {
        let x = w.push(k as char);
        if m.contains_key(x) {
            assert(m.contains_key(x.take(w.len() as int)));
            assert(x.take(w.len() as int) =~= w);
        }
    }
}

/// After inserting `p`, the node at `w` has one more child reference when it lies strictly
/// above the end of `p`.
pub proof fn lemma_total_after_insert(m: Map<Seq<char>, nat>, p: Seq<char>, w: Seq<char>)
    requires
        valid_counts(m),
    ensures
        children_total(counts_after_insert(m, p), w) == (if m.contains_key(w) { children_total(m, w) } else { 0nat })
            + (if w.len() < p.len() && w.is_prefix_of(p) { 1nat } else { 0nat }),
{
    let m1 = counts_after_insert(m, p);
    let s0 = child_keys(m, w);
    let s1 = child_keys(m1, w);
    let g0 = child_weight(m, w);
    let g1 = child_weight(m1, w);
    if !m.contains_key(w) {
        lemma_no_children_outside(m, w);
        crate::glob_tree::lemma_sum_over_empty_pub(g0);
    }
    assert(s0.finite()) by {
        if !m.contains_key(w) {
            lemma_no_children_outside(m, w);
        }
    }
    let strict = w.len() < p.len() && w.is_prefix_of(p);
    if strict {
        let c = p[w.len() as int];
        let k = c as u32;
        lemma_key_of_char(c);
        let wc = w.push(c);
        assert(wc =~= p.take(w.len() + 1int));
        lemma_prefix_take(wc, p);
        assert(s1 =~= s0.insert(k)) by {
            assert forall|k2: u32| #[trigger] s1.contains(k2) == s0.insert(k).contains(k2) by {
                let x = w.push(k2 as char);
                lemma_prefix_take(x, p);
                if k2 != k && x.is_prefix_of(p) {
                    assert(x[w.len() as int] == p[w.len() as int]);
                    assert(x[w.len() as int] == k2 as char);
                    assert((k2 as char) == c);
                }
            }
        }
        assert forall|k2: u32| s0.contains(k2) && k2 != k implies g1(k2) == g0(k2) by {
            let x = w.push(k2 as char);
            lemma_prefix_take(x, p);
            if x.is_prefix_of(p) {
                assert(x[w.len() as int] == p[w.len() as int]);
                assert((k2 as char) == c);
            }
        }
        assert(g1(k) == (if m.contains_key(wc) { m[wc] } else { 0nat }) + 1);
        if s0.contains(k) {
            lemma_sum_over_remove_pub(s0, g0, k);
            lemma_sum_over_remove_pub(s1, g1, k);
            assert(s1.remove(k) =~= s0.remove(k));
            lemma_sum_over_congruent_pub(s0.remove(k), g1, g0);
        } else {
            assert(!m.contains_key(wc));
            lemma_sum_over_insert_pub(s0, g1, k);
            lemma_sum_over_congruent_pub(s0, g1, g0);
        }
    } else {
        assert(s1 =~= s0) by {
            assert forall|k2: u32| #[trigger] s1.contains(k2) == s0.contains(k2) by {
                let x = w.push(k2 as char);
                lemma_prefix_take(x, p);
                if x.is_prefix_of(p) {
                    assert(x.take(w.len() as int) =~= w);
                    assert(p.take(w.len() as int) =~= x.take(w.len() as int));
                    lemma_prefix_take(w, p);
                }
            }
        }
        assert forall|k2: u32| s0.contains(k2) implies g1(k2) == g0(k2) by {
            let x = w.push(k2 as char);
            lemma_prefix_take(x, p);
            if x.is_prefix_of(p) {
                assert(x.take(w.len() as int) =~= w);
                assert(p.take(w.len() as int) =~= x.take(w.len() as int));
                lemma_prefix_take(w, p);
            }
        }
        lemma_sum_over_congruent_pub(s0, g1, g0);
    }
}


proof fn lemma_unit_cut_props(m: Map<Seq<char>, nat>, p: Seq<char>, j0: int)
    requires
        0 <= j0 <= p.len(),
    ensures
        j0 < unit_cut(m, p, j0) <= p.len() + 1,
        forall|i: int| j0 < i < unit_cut(m, p, j0) ==> #[trigger] m[p.take(i)] != 1,
        unit_cut(m, p, j0) <= p.len() ==> m[p.take(unit_cut(m, p, j0))] == 1,
    decreases p.len() - j0,
{
    if j0 < p.len() && m[p.take(j0 + 1)] != 1 {
        lemma_unit_cut_props(m, p, j0 + 1);
    }
}

/// After removing `p`, the node at `w` has one child reference fewer when it lies strictly
/// above the end of `p` and above the node that was deleted.
pub proof fn lemma_total_after_remove(m: Map<Seq<char>, nat>, p: Seq<char>, w: Seq<char>)
    requires
        valid_counts(m),
        m.contains_key(p),
        counts_after_remove(m, p).contains_key(w),
    ensures
        children_total(counts_after_remove(m, p), w) + (if w.len() < p.len() && w.is_prefix_of(p) && w.len() < unit_cut(m, p, 0) { 1nat } else { 0nat })
            == children_total(m, w),
{
    let r = counts_after_remove(m, p);
    let j = unit_cut(m, p, 0);
    lemma_unit_cut_props(m, p, 0);
    let s0 = child_keys(m, w);
    let s1 = child_keys(r, w);
    let g0 = child_weight(m, w);
    let g1 = child_weight(r, w);
    assert(m.contains_key(w));
    assert(s0.finite());
    lemma_prefix_take(w, p);
    let strict = w.len() < p.len() && w.is_prefix_of(p) && w.len() < j;
    // Children of `w` other than the one on `p` keep their presence and counts.
    assert forall|k2: u32| s0.contains(k2) && !(strict && (k2 as char) == p[w.len() as int]) implies s1.contains(k2) && g1(k2) == g0(k2) by {
        let x = w.push(k2 as char);
        lemma_prefix_take(x, p);
        if j <= p.len() && p.take(j).is_prefix_of(x) {
            lemma_prefix_take(p.take(j), x);
            if w.len() >= j {
                lemma_prefix_take(p.take(j), w);
                assert(w.take(j) =~= x.take(j));
            } else {
                assert(x.len() == j);
                assert(x =~= p.take(j));
                assert(x[w.len() as int] == p[w.len() as int]);
                assert(w =~= p.take(w.len() as int));
            }
        }
        if 0 < x.len() < j && x.is_prefix_of(p) {
            assert(x[w.len() as int] == p[w.len() as int]);
            assert(w =~= p.take(w.len() as int));
        }
    }
    assert forall|k2: u32| s1.contains(k2) implies s0.contains(k2) by {}
    assert(s1.subset_of(s0));
    vstd::set_lib::lemma_set_subset_finite(s0, s1);
    if strict {
        let c = p[w.len() as int];
        let k = c as u32;
        lemma_key_of_char(c);
        let wc = w.push(c);
        assert(wc =~= p.take(w.len() + 1int));
        lemma_prefix_take(wc, p);
        assert(m.contains_key(p.take(w.len() + 1int)));
        assert(m.contains_key(wc));
        assert(s0.contains(k));
        assert forall|k2: u32| s1.contains(k2) && k2 != k implies g1(k2) == g0(k2) by {
            if (k2 as char) == c {
                lemma_key_of_char(c);
            }
        }
        lemma_sum_over_remove_pub(s0, g0, k);
        if w.len() + 1 < j {
            assert(s1.contains(k));
            assert(m[wc] != 1);
            assert(g1(k) + 1 == g0(k));
            lemma_sum_over_remove_pub(s1, g1, k);
            assert(s1.remove(k) =~= s0.remove(k));
            lemma_sum_over_congruent_pub(s0.remove(k), g1, g0);
        } else {
            assert(w.len() + 1 == j);
            assert(wc =~= p.take(j));
            assert(m[wc] == 1);
            assert(!r.contains_key(wc));
            assert(s1 =~= s0.remove(k)) by {
                assert forall|k2: u32| #[trigger] s1.contains(k2) == s0.remove(k).contains(k2) by {
                    if k2 == k {
                        assert(w.push(k2 as char) == wc);
                    } else if s0.contains(k2) && (k2 as char) == c {
                        lemma_key_of_char(c);
                    }
                }
            }
            lemma_sum_over_congruent_pub(s1, g1, g0);
        }
    } else {
        assert(s1 =~= s0);
        lemma_sum_over_congruent_pub(s0, g1, g0);
    }
}

/// Inserting keeps counts valid.
pub proof fn lemma_insert_valid(m: Map<Seq<char>, nat>, p: Seq<char>)
    requires
        valid_counts(m),
    ensures
        valid_counts(counts_after_insert(m, p)),
{
    let m1 = counts_after_insert(m, p);
    assert(Seq::<char>::empty().is_prefix_of(p));
    assert forall|w: Seq<char>, i: int| m1.contains_key(w) && 0 <= i <= w.len() implies #[trigger] m1.contains_key(w.take(i)) by {
        if !m.contains_key(w) {
            lemma_prefix_take(w, p);
            lemma_prefix_take(w.take(i), p);
            assert(w.take(i) =~= p.take(i));
        }
    }
    assert forall|w: Seq<char>| #[trigger] m1.contains_key(w) implies child_keys(m1, w).finite() by {
        let s0 = child_keys(m, w);
        assert(s0.finite()) by {
            if !m.contains_key(w) {
                lemma_no_children_outside(m, w);
            }
        }
        if w.len() < p.len() {
            let k = p[w.len() as int] as u32;
            assert(child_keys(m1, w).subset_of(s0.insert(k))) by {
                assert forall|k2: u32| child_keys(m1, w).contains(k2) implies s0.insert(k2).contains(k2) && (s0.contains(k2) || k2 == k) by {
                    let x = w.push(k2 as char);
                    if !m.contains_key(x) {
                        lemma_prefix_take(x, p);
                        assert(x[w.len() as int] == p[w.len() as int]);
                        assert((k2 as char) == p[w.len() as int]);
                    }
                }
            }
            vstd::set_lib::lemma_set_subset_finite(s0.insert(k), child_keys(m1, w));
        } else {
            assert(child_keys(m1, w).subset_of(s0)) by {
                assert forall|k2: u32| child_keys(m1, w).contains(k2) implies s0.contains(k2) by {
                    let x = w.push(k2 as char);
                    lemma_prefix_take(x, p);
                }
            }
            vstd::set_lib::lemma_set_subset_finite(s0, child_keys(m1, w));
        }
    }
}

/// Removing keeps counts valid.
pub proof fn lemma_remove_valid(m: Map<Seq<char>, nat>, p: Seq<char>)
    requires
        valid_counts(m),
    ensures
        valid_counts(counts_after_remove(m, p)),
{
    let r = counts_after_remove(m, p);
    let j = unit_cut(m, p, 0);
    lemma_unit_cut_props(m, p, 0);
    assert(r.contains_key(Seq::empty())) by {
        if j <= p.len() && p.take(j).is_prefix_of(Seq::<char>::empty()) {
        }
    }
    assert forall|w: Seq<char>, i: int| r.contains_key(w) && 0 <= i <= w.len() implies #[trigger] r.contains_key(w.take(i)) by {
        let u = w.take(i);
        assert(m.contains_key(u));
        if j <= p.len() && p.take(j).is_prefix_of(u) {
            lemma_prefix_take(p.take(j), u);
            lemma_prefix_take(p.take(j), w);
            assert(u.take(j) =~= w.take(j));
        }
    }
    assert forall|w: Seq<char>| #[trigger] r.contains_key(w) && w.len() > 0 implies r[w] >= 1 by {
        if 0 < w.len() < j && w.is_prefix_of(p) {
            lemma_prefix_take(w, p);
            assert(m[p.take(w.len() as int)] != 1);
        }
    }
    assert forall|w: Seq<char>| #[trigger] r.contains_key(w) implies child_keys(r, w).finite() by {
        assert(child_keys(r, w).subset_of(child_keys(m, w)));
        vstd::set_lib::lemma_set_subset_finite(child_keys(m, w), child_keys(r, w));
    }
}

/// Every count, and the sum of the counts of the children of every node, is at most `b`.
pub open spec fn counts_bounded(m: Map<Seq<char>, nat>, b: nat) -> bool {
    forall|w: Seq<char>| #[trigger] m.contains_key(w) ==> m[w] <= b && children_total(m, w) <= b
}

/// An insertion raises every count and every children total by at most one.
pub proof fn lemma_insert_bounded(m: Map<Seq<char>, nat>, p: Seq<char>, b: nat)
    requires
        valid_counts(m),
        counts_bounded(m, b),
    ensures
        counts_bounded(counts_after_insert(m, p), b + 1),
{
    let m1 = counts_after_insert(m, p);
    assert forall|w: Seq<char>| #[trigger] m1.contains_key(w) implies m1[w] <= b + 1
        && children_total(m1, w) <= b + 1 by {
        lemma_total_after_insert(m, p, w);
    }
}

/// A removal raises no count and no children total.
pub proof fn lemma_remove_bounded(m: Map<Seq<char>, nat>, p: Seq<char>, b: nat)
    requires
        valid_counts(m),
        counts_bounded(m, b),
        m.contains_key(p),
    ensures
        counts_bounded(counts_after_remove(m, p), b),
{
    let r = counts_after_remove(m, p);
    assert forall|w: Seq<char>| #[trigger] r.contains_key(w) implies r[w] <= b && children_total(r, w) <= b by {
        lemma_total_after_remove(m, p, w);
    }
}

/// The counts after a pattern is added along path `p`: every prefix of `p`, the empty one
/// included, gains a reference, and missing nodes are created with one.
pub open spec fn counts_after_add(m: Map<Seq<char>, nat>, p: Seq<char>) -> Map<Seq<char>, nat> {
    Map::new(
        |w: Seq<char>| m.contains_key(w) || w.is_prefix_of(p),
        |w: Seq<char>| (if m.contains_key(w) { m[w] } else { 0nat }) + (if w.is_prefix_of(p) { 1nat } else { 0nat }),
    )
}

/// The counts after the pattern along `p` is taken out: the first node on `p` referenced
/// only once is deleted with everything below it, and every node above it on the path, the
/// root included, loses one reference.
pub open spec fn counts_after_take(m: Map<Seq<char>, nat>, p: Seq<char>) -> Map<Seq<char>, nat> {
    counts_after_remove(m, p).insert(Seq::empty(), (m[Seq::empty()] - 1) as nat)
}

/// Every node, the root included, is referenced at least as often as its children together.
pub open spec fn no_excess_all(m: Map<Seq<char>, nat>) -> bool {
    forall|w: Seq<char>| #[trigger] m.contains_key(w) ==> children_total(m, w) <= m[w]
}

/// How many times the pattern `w` is stored: the references of its node that none of its
/// children accounts for.
pub open spec fn pattern_count(m: Map<Seq<char>, nat>, w: Seq<char>) -> int {
    if m.contains_key(w) {
        m[w] - children_total(m, w)
    } else {
        0
    }
}

/// Two maps that agree on every nonempty path give every node the same children total.
proof fn lemma_same_children(m1: Map<Seq<char>, nat>, m2: Map<Seq<char>, nat>, w: Seq<char>)
    requires
        child_keys(m1, w).finite(),
        forall|u: Seq<char>| u.len() > 0 ==> (#[trigger] m1.contains_key(u) == m2.contains_key(u) && (m1.contains_key(u) ==> m1[u] == m2[u])),
    ensures
        children_total(m1, w) == children_total(m2, w),
{
    assert forall|k: u32| #[trigger] child_keys(m1, w).contains(k) == child_keys(m2, w).contains(k) by {
        assert(w.push(k as char).len() > 0);
    }
    assert(child_keys(m1, w) =~= child_keys(m2, w));
    assert forall|k: u32| child_keys(m1, w).contains(k) implies child_weight(m1, w)(k) == child_weight(m2, w)(k) by {
        assert(w.push(k as char).len() > 0);
    }
    lemma_sum_over_congruent_pub(child_keys(m1, w), child_weight(m1, w), child_weight(m2, w));
}

/// Adding a pattern is inserting it below the root and raising the root by one.
pub proof fn lemma_add_is_insert_pub(m: Map<Seq<char>, nat>, p: Seq<char>)
    requires
        valid_counts(m),
    ensures
        counts_after_add(m, p) == counts_after_insert(m, p).insert(Seq::empty(), m[Seq::empty()] + 1),
        valid_counts(counts_after_add(m, p)),
        forall|w: Seq<char>| #[trigger] children_total(counts_after_add(m, p), w) == children_total(counts_after_insert(m, p), w),
{
    let a = counts_after_add(m, p);
    let c = counts_after_insert(m, p);
    assert(Seq::<char>::empty().is_prefix_of(p));
    assert(a =~= c.insert(Seq::empty(), m[Seq::empty()] + 1));
    lemma_insert_valid(m, p);
    assert forall|w: Seq<char>| #[trigger] children_total(a, w) == children_total(c, w) by {
        if c.contains_key(w) {
            lemma_same_children(c, a, w);
        } else {
            assert forall|k: u32| !#[trigger] child_keys(c, w).contains(k) by {
                let x = w.push(k as char);
                if c.contains_key(x) {
                    assert(c.contains_key(x.take(w.len() as int)));
                    assert(x.take(w.len() as int) =~= w);
                }
            }
            assert(child_keys(c, w) =~= Set::<u32>::empty());
            lemma_same_children(c, a, w);
        }
    }
    assert(valid_counts(a)) by {
        assert forall|w: Seq<char>, i: int| a.contains_key(w) && 0 <= i <= w.len() implies #[trigger] a.contains_key(w.take(i)) by {
            assert(c.contains_key(w));
        }
        assert forall|w: Seq<char>| #[trigger] a.contains_key(w) implies child_keys(a, w).finite() by {
            assert(c.contains_key(w));
            assert forall|k: u32| #[trigger] child_keys(a, w).contains(k) == child_keys(c, w).contains(k) by {
                assert(w.push(k as char).len() > 0);
            }
            assert(child_keys(a, w) =~= child_keys(c, w));
        }
    }
}

/// Adding a pattern stores it once more and leaves every other pattern as it was, and keeps
/// every node at least as referenced as its children.
pub proof fn lemma_add_counts(m: Map<Seq<char>, nat>, p: Seq<char>)
    requires
        valid_counts(m),
        no_excess_all(m),
    ensures
        valid_counts(counts_after_add(m, p)),
        no_excess_all(counts_after_add(m, p)),
        forall|w: Seq<char>| #[trigger] pattern_count(counts_after_add(m, p), w) == pattern_count(m, w) + (if w == p { 1int } else { 0int }),
{
    let a = counts_after_add(m, p);
    lemma_add_is_insert_pub(m, p);
    assert forall|w: Seq<char>| #[trigger] pattern_count(a, w) == pattern_count(m, w) + (if w == p { 1int } else { 0int })
        && (a.contains_key(w) ==> children_total(a, w) <= a[w]) by {
        lemma_total_after_insert(m, p, w);
        assert(children_total(a, w) == children_total(counts_after_insert(m, p), w));
        if w.is_prefix_of(p) && w.len() == p.len() {
            assert(w =~= p);
        }
        if w == p {
            assert(w.is_prefix_of(p));
        }
        if !m.contains_key(w) && !w.is_prefix_of(p) {
            assert(!a.contains_key(w));
        }
    }
    assert forall|w: Seq<char>| #[trigger] a.contains_key(w) implies children_total(a, w) <= a[w] by {
        assert(pattern_count(a, w) == pattern_count(m, w) + (if w == p { 1int } else { 0int }));
    }
}

/// Adding a pattern raises every count and every children total by at most one.
pub proof fn lemma_add_bounded(m: Map<Seq<char>, nat>, p: Seq<char>, b: nat)
    requires
        valid_counts(m),
        counts_bounded(m, b),
    ensures
        counts_bounded(counts_after_add(m, p), b + 1),
{
    let a = counts_after_add(m, p);
    lemma_add_is_insert_pub(m, p);
    lemma_insert_bounded(m, p, b);
    assert forall|w: Seq<char>| #[trigger] a.contains_key(w) implies a[w] <= b + 1 && children_total(a, w) <= b + 1 by {
        assert(children_total(a, w) == children_total(counts_after_insert(m, p), w));
        assert(counts_after_insert(m, p).contains_key(w));
    }
}

/// The first node referenced once, walking down `p`, is the same in two maps that agree on
/// every nonempty path.
proof fn lemma_unit_cut_agree(m1: Map<Seq<char>, nat>, m2: Map<Seq<char>, nat>, p: Seq<char>, j: int)
    requires
        0 <= j,
        forall|u: Seq<char>| u.len() > 0 ==> (#[trigger] m1.contains_key(u) == m2.contains_key(u) && (m1.contains_key(u) ==> m1[u] == m2[u])),
        forall|i: int| 0 < i <= p.len() ==> #[trigger] m1.contains_key(p.take(i)),
    ensures
        unit_cut(m1, p, j) == unit_cut(m2, p, j),
    decreases p.len() - j,
{
    if j < p.len() {
        assert(p.take(j + 1).len() > 0);
        assert(m1.contains_key(p.take(j + 1)));
        lemma_unit_cut_agree(m1, m2, p, j + 1);
    }
}

/// Taking out a stored pattern keeps the counts valid and every node at least as referenced
/// as its children, and lowers the pattern's own count by one where its node stays.
pub proof fn lemma_take_counts(m: Map<Seq<char>, nat>, p: Seq<char>)
    requires
        valid_counts(m),
        no_excess_all(m),
        ends_pattern_in(m, p),
    ensures
        valid_counts(counts_after_take(m, p)),
        no_excess_all(counts_after_take(m, p)),
        forall|w: Seq<char>| #[trigger] counts_after_take(m, p).contains_key(w) ==> pattern_count(counts_after_take(m, p), w)
            == pattern_count(m, w) - (if w == p { 1int } else { 0int }),
        forall|w: Seq<char>| #[trigger] counts_after_take(m, p).contains_key(w) ==> m.contains_key(w),
        m[Seq::empty()] >= 1,
{
    let r = counts_after_remove(m, p);
    let t = counts_after_take(m, p);
    let j = unit_cut(m, p, 0);
    lemma_unit_cut_props(m, p, 0);
    lemma_remove_valid(m, p);
    assert(r.contains_key(Seq::empty()));
    assert(m.contains_key(p));
    assert(m[Seq::<char>::empty()] >= 1) by {
        if p.len() == 0 {
            assert(p =~= Seq::<char>::empty());
        } else {
            let k = p[0] as u32;
            assert(m.contains_key(p.take(1)));
            assert(p.take(1) =~= Seq::<char>::empty().push(p[0]));
            lemma_key_of_char(p[0]);
            assert(child_keys(m, Seq::empty()).contains(k));
            lemma_sum_over_remove_pub(child_keys(m, Seq::empty()), child_weight(m, Seq::empty()), k);
            assert(child_weight(m, Seq::empty())(k) == m[p.take(1)]);
        }
    }
    assert forall|w: Seq<char>| #[trigger] t.contains_key(w) implies children_total(t, w) == children_total(r, w) by {
        lemma_same_children(r, t, w);
    }
    assert(valid_counts(t)) by {
        assert forall|w: Seq<char>| #[trigger] t.contains_key(w) implies child_keys(t, w).finite() by {
            assert forall|k: u32| #[trigger] child_keys(t, w).contains(k) == child_keys(r, w).contains(k) by {
                assert(w.push(k as char).len() > 0);
            }
            assert(child_keys(t, w) =~= child_keys(r, w));
        }
        assert forall|w: Seq<char>, i: int| t.contains_key(w) && 0 <= i <= w.len() implies #[trigger] t.contains_key(w.take(i)) by {
            assert(r.contains_key(w));
        }
    }
    assert forall|w: Seq<char>| #[trigger] t.contains_key(w) implies children_total(t, w) <= t[w]
        && pattern_count(t, w) == pattern_count(m, w) - (if w == p { 1int } else { 0int }) && m.contains_key(w) by {
        assert(r.contains_key(w));
        lemma_total_after_remove(m, p, w);
        lemma_prefix_take(w, p);
        if w.is_prefix_of(p) && w.len() == p.len() {
            assert(w =~= p);
        }
        if w.len() == 0 {
            assert(w =~= Seq::<char>::empty());
        }
        if w == p {
            assert(w.is_prefix_of(p));
        }
    }
}

/// Taking out a pattern right after adding it gives back the counts as they were.
pub proof fn lemma_take_undoes_add(m: Map<Seq<char>, nat>, p: Seq<char>)
    requires
        valid_counts(m),
    ensures
        counts_after_take(counts_after_add(m, p), p) == m,
{
    let a = counts_after_add(m, p);
    let c = counts_after_insert(m, p);
    lemma_add_is_insert_pub(m, p);
    assert(Seq::<char>::empty().is_prefix_of(p));
    if p.len() > 0 {
        lemma_remove_undoes_insert(m, p);
        assert forall|i: int| 0 < i <= p.len() implies #[trigger] c.contains_key(p.take(i)) by {
            assert(p.take(i).is_prefix_of(p));
        }
        lemma_unit_cut_agree(c, a, p, 0);
        let ra = counts_after_remove(a, p);
        let rc = counts_after_remove(c, p);
        assert forall|w: Seq<char>| w.len() > 0 implies #[trigger] ra.contains_key(w) == rc.contains_key(w)
            && (ra.contains_key(w) ==> ra[w] == rc[w]) by {}
        assert(ra.contains_key(Seq::empty()) && rc.contains_key(Seq::empty())) by {
            lemma_unit_cut_props(a, p, 0);
        }
        assert(counts_after_take(a, p) =~= m) by {
            assert forall|w: Seq<char>| #[trigger] counts_after_take(a, p).contains_key(w) == m.contains_key(w) by {
                if w.len() == 0 {
                    assert(w =~= Seq::<char>::empty());
                }
            }
            assert forall|w: Seq<char>| #[trigger] m.contains_key(w) implies counts_after_take(a, p)[w] == m[w] by {
                if w.len() == 0 {
                    assert(w =~= Seq::<char>::empty());
                }
            }
        }
    } else {
        assert forall|w: Seq<char>| w.is_prefix_of(p) implies w =~= Seq::<char>::empty() by {}
        assert(unit_cut(a, p, 0) == 1);
        assert(counts_after_take(a, p) =~= m);
    }
}

/// Taking out a stored pattern raises no count and no children total.
pub proof fn lemma_take_bounded(m: Map<Seq<char>, nat>, p: Seq<char>, b: nat)
    requires
        valid_counts(m),
        counts_bounded(m, b),
        m.contains_key(p),
        m[Seq::empty()] >= 1,
    ensures
        counts_bounded(counts_after_take(m, p), b),
{
    let r = counts_after_remove(m, p);
    let t = counts_after_take(m, p);
    lemma_remove_bounded(m, p, b);
    lemma_remove_valid(m, p);
    assert(m.contains_key(Seq::empty()));
    assert forall|w: Seq<char>| #[trigger] t.contains_key(w) implies t[w] <= b && children_total(t, w) <= b by {
        assert(r.contains_key(w));
        lemma_same_children(r, t, w);
        if w == Seq::<char>::empty() {
            assert(m[Seq::<char>::empty()] <= b);
        }
    }
}

/// The count of a child is part of its parent's children total.
proof fn lemma_child_in_total(m: Map<Seq<char>, nat>, u: Seq<char>, c: char)
    requires
        valid_counts(m),
        m.contains_key(u),
        m.contains_key(u.push(c)),
    ensures
        m[u.push(c)] <= children_total(m, u),
{
    let k = c as u32;
    lemma_key_of_char(c);
    let s = child_keys(m, u);
    assert(s.contains(k));
    lemma_sum_over_remove_pub(s, child_weight(m, u), k);
}

/// The counts of two different children are both part of their parent's children total.
proof fn lemma_two_children_in_total(m: Map<Seq<char>, nat>, u: Seq<char>, c1: char, c2: char)
    requires
        valid_counts(m),
        m.contains_key(u),
        m.contains_key(u.push(c1)),
        m.contains_key(u.push(c2)),
        c1 != c2,
    ensures
        m[u.push(c1)] + m[u.push(c2)] <= children_total(m, u),
{
    let k1 = c1 as u32;
    let k2 = c2 as u32;
    lemma_key_of_char(c1);
    lemma_key_of_char(c2);
    let s = child_keys(m, u);
    let g = child_weight(m, u);
    assert(s.contains(k1));
    assert(s.contains(k2));
    assert(k1 != k2);
    lemma_sum_over_remove_pub(s, g, k1);
    assert(s.remove(k1).contains(k2));
    lemma_sum_over_remove_pub(s.remove(k1), g, k2);
}

/// Below a node referenced once, every node is referenced once.
proof fn lemma_below_unit(m: Map<Seq<char>, nat>, c: Seq<char>, w: Seq<char>)
    requires
        valid_counts(m),
        no_excess_all(m),
        c.len() > 0,
        m.contains_key(c),
        m[c] == 1,
        m.contains_key(w),
        c.is_prefix_of(w),
    ensures
        m[w] == 1,
    decreases w.len(),
{
    if w.len() > c.len() {
        let u = w.drop_last();
        assert(u =~= w.take(w.len() - 1));
        assert(m.contains_key(u));
        assert(c.is_prefix_of(u));
        lemma_below_unit(m, c, u);
        assert(u.push(w.last()) =~= w);
        lemma_child_in_total(m, u, w.last());
    } else {
        assert(w =~= c);
    }
}

/// Below the node `p.take(j)` referenced once, every node lies on the path of a stored
/// pattern `p`.
proof fn lemma_below_unit_on_path(m: Map<Seq<char>, nat>, p: Seq<char>, j: int, w: Seq<char>)
    requires
        valid_counts(m),
        no_excess_all(m),
        ends_pattern_in(m, p),
        1 <= j <= p.len(),
        m[p.take(j)] == 1,
        m.contains_key(w),
        p.take(j).is_prefix_of(w),
    ensures
        w.is_prefix_of(p),
    decreases w.len(),
{
    let c = p.take(j);
    assert(m.contains_key(c));
    if w.len() > j {
        let u = w.drop_last();
        assert(u =~= w.take(w.len() - 1));
        assert(m.contains_key(u));
        assert(c.is_prefix_of(u));
        lemma_below_unit_on_path(m, p, j, u);
        lemma_below_unit(m, c, u);
        lemma_below_unit(m, c, w);
        assert(u.push(w.last()) =~= w);
        assert(no_excess_all(m) ==> children_total(m, u) <= m[u]);
        if u.len() == p.len() {
            assert(u =~= p);
            lemma_child_in_total(m, u, w.last());
        } else {
            let pc = p[u.len() as int];
            let next = p.take(u.len() + 1int);
            assert(next =~= u.push(pc));
            assert(m.contains_key(next));
            if w.last() != pc {
                lemma_two_children_in_total(m, u, w.last(), pc);
                lemma_below_unit(m, c, next);
            } else {
                assert(w =~= next);
            }
        }
    } else {
        assert(w =~= c);
    }
}

/// The nodes that taking out a stored pattern `p` deletes hold no pattern but `p`, once.
pub proof fn lemma_take_deletes(m: Map<Seq<char>, nat>, p: Seq<char>)
    requires
        valid_counts(m),
        no_excess_all(m),
        ends_pattern_in(m, p),
    ensures
        forall|w: Seq<char>| #[trigger] m.contains_key(w) && !counts_after_take(m, p).contains_key(w)
            ==> pattern_count(m, w) == (if w == p { 1int } else { 0int }),
{
    let j = unit_cut(m, p, 0);
    lemma_unit_cut_props(m, p, 0);
    assert forall|w: Seq<char>| #[trigger] m.contains_key(w) && !counts_after_take(m, p).contains_key(w)
        implies pattern_count(m, w) == (if w == p { 1int } else { 0int }) by {
        assert(w.len() > 0);
        assert(j <= p.len() && p.take(j).is_prefix_of(w));
        assert(m.contains_key(p.take(j)));
        lemma_below_unit_on_path(m, p, j, w);
        lemma_below_unit(m, p.take(j), w);
        assert(children_total(m, w) <= m[w]);
        lemma_prefix_take(w, p);
        if w.len() < p.len() {
            let next = p.take(w.len() + 1int);
            assert(next =~= w.push(p[w.len() as int]));
            assert(m.contains_key(next));
            lemma_child_in_total(m, w, p[w.len() as int]);
            assert(w != p);
        } else {
            assert(w =~= p);
        }
    }
}

/// A pattern is stored exactly when its count is positive.
pub proof fn lemma_ends_iff_count(m: Map<Seq<char>, nat>, w: Seq<char>)
    ensures
        ends_pattern_in(m, w) == (pattern_count(m, w) > 0),
{
}

} // verus!
