//! A tree of subscription patterns for one client, answering whether the client is
//! subscribed to a topic.
use crate::broker_glob_tree::{admits_topic, GlobTree};
use crate::glob_tree::{ends_pattern_in, valid_counts};
use crate::pattern_counts::{counts_after_add, counts_after_take, no_excess_all};
use vstd::prelude::*;

verus! {

/// The subscription patterns of one client, stored as a tree of characters.
pub struct SubscriptionTree {
    patterns: GlobTree,
}

impl View for SubscriptionTree {
    type V = Map<Seq<char>, nat>;

    /// The reference counts of the nodes of the tree, keyed by path: each node counts the
    /// patterns that pass through it.
    closed spec fn view(&self) -> Map<Seq<char>, nat> {
        self.patterns@
    }
}

impl SubscriptionTree {
    /// The number of subscriptions so far.
    pub closed spec fn subscriptions(self) -> nat {
        self.patterns.insertions()
    }

    /// No counter of the tree overflows when a pattern is added.
    pub open spec fn can_subscribe(self) -> bool {
        self.subscriptions() < u64::MAX
    }

    /// Whether a pattern can be subscribed without a counter overflowing.
    pub fn has_room(&self) -> (r: bool)
        ensures
            r == self.can_subscribe(),
            valid_counts(self@),
            no_excess_all(self@),
    {
        self.patterns.has_room()
    }

    /// Create a new, empty tree
    pub fn new() -> (t: SubscriptionTree)
        ensures
            t@ == Map::<Seq<char>, nat>::empty().insert(Seq::empty(), 0),
            t.subscriptions() == 0,
            valid_counts(t@),
            no_excess_all(t@),
    {
        SubscriptionTree { patterns: GlobTree::new() }
    }

    /// Add a subscription to the tree: every node along the pattern, the root included, gains
    /// a reference, and missing nodes are created.
    pub fn subscribe(&mut self, pattern: &str)
        requires
            old(self).can_subscribe(),
        ensures
            final(self)@ == counts_after_add(old(self)@, pattern@),
            final(self).subscriptions() == old(self).subscriptions() + 1,
            valid_counts(final(self)@),
            no_excess_all(final(self)@),
    {
        self.patterns.insert(pattern);
    }

    /// Whether the client is subscribed to a given topic: a pattern must match it, with `*`
    /// standing for any run of characters; a system topic (starting with `!`) is matched only
    /// by the pattern `!` or by patterns that start with `!`.
    pub fn is_subscribed(&self, topic: &str) -> (r: bool)
        ensures
            r == admits_topic(self@, topic@),
    {
        self.patterns.admits(topic)
    }

    /// Returns true if the pattern is subscribed
    fn pattern_in_tree(&self, pattern: &str) -> (r: bool)
        ensures
            r == ends_pattern_in(self@, pattern@),
            valid_counts(self@),
            no_excess_all(self@),
    {
        self.patterns.contains(pattern)
    }

    /// Delete a subscription. Fails, leaving the tree unchanged, when the pattern is not
    /// subscribed.
    pub fn unsubscribe(&mut self, pattern: &str) -> (r: Result<(), &'static str>)
        ensures
            ends_pattern_in(old(self)@, pattern@) ==> r is Ok && final(self)@ == counts_after_take(old(self)@, pattern@),
            !ends_pattern_in(old(self)@, pattern@) ==> r == Err::<(), &'static str>("Not found") && final(self)@ == old(self)@,
            final(self).subscriptions() == old(self).subscriptions(),
            valid_counts(final(self)@),
            no_excess_all(final(self)@),
    {
        if !self.pattern_in_tree(pattern) {
            return Err("Not found");
        }
        self.patterns.remove(pattern)
    }

    /// The tree holds no subscription.
    pub fn is_empty(&self) -> (r: bool)
        ensures
            r == (self@ == Map::<Seq<char>, nat>::empty().insert(Seq::empty(), 0)),
    {
        self.patterns.is_empty()
    }
}

/// A client is subscribed to a topic right after subscribing to the topic itself as a
/// pattern, unless it is a system topic and the pattern does not start with `!`, which
/// cannot be: a system topic starts with `!`.
pub proof fn lemma_subscribe_then_subscribed(m: Map<Seq<char>, nat>, p: Seq<char>)
    requires
        valid_counts(m),
        no_excess_all(m),
    ensures
        admits_topic(counts_after_add(m, p), p),
{
    let a = counts_after_add(m, p);
    crate::glob_tree::lemma_insert_then_contains(m, p, p);
    crate::glob_tree::lemma_pattern_matches_itself(p, false);
    if p.len() > 0 && p[0] == crate::config::SYSTEM_TOPIC_MARKER {
        let v = p.drop_first();
        assert(seq![crate::config::SYSTEM_TOPIC_MARKER] + v =~= p);
        assert(p.skip(1) =~= v);
        crate::glob_tree::lemma_pattern_matches_itself(v, false);
        assert(ends_pattern_in(a, seq![crate::config::SYSTEM_TOPIC_MARKER] + v) && crate::glob_tree::pattern_matches(v, p.skip(1), false));
    } else {
        assert(ends_pattern_in(a, p) && crate::glob_tree::pattern_matches(p, p, false));
    }
}

/// Subscribing to a pattern keeps every topic the client was subscribed to.
pub proof fn lemma_subscribe_keeps_subscriptions(m: Map<Seq<char>, nat>, p: Seq<char>, t: Seq<char>)
    requires
        valid_counts(m),
        no_excess_all(m),
        admits_topic(m, t),
    ensures
        admits_topic(counts_after_add(m, p), t),
{
    let a = counts_after_add(m, p);
    let marker = seq![crate::config::SYSTEM_TOPIC_MARKER];
    assert forall|w: Seq<char>| #[trigger] ends_pattern_in(m, w) implies ends_pattern_in(a, w) by {
        crate::glob_tree::lemma_insert_then_contains(m, p, w);
    }
    if t.len() > 0 && t[0] == crate::config::SYSTEM_TOPIC_MARKER {
        if !ends_pattern_in(m, marker) {
            let v = choose|v: Seq<char>| #[trigger] ends_pattern_in(m, marker + v)
                && crate::glob_tree::pattern_matches(v, t.skip(1), false);
            assert(ends_pattern_in(a, marker + v));
        }
    } else {
        let w = choose|w: Seq<char>| #[trigger] ends_pattern_in(m, w) && crate::glob_tree::pattern_matches(w, t, false);
        assert(ends_pattern_in(a, w));
    }
}

/// Unsubscribing right after subscribing to a pattern succeeds and gives back the tree as
/// it was.
pub proof fn lemma_subscribe_then_unsubscribe(m: Map<Seq<char>, nat>, p: Seq<char>)
    requires
        valid_counts(m),
        no_excess_all(m),
    ensures
        ends_pattern_in(counts_after_add(m, p), p),
        counts_after_take(counts_after_add(m, p), p) == m,
{
    crate::glob_tree::lemma_insert_then_remove(m, p);
}

/// A wildcard subscribed alone matches every topic that is not a system topic.
pub proof fn lemma_wildcard_subscribes_plain_topics(m: Map<Seq<char>, nat>, t: Seq<char>)
    requires
        ends_pattern_in(m, seq!['*']),
        t.len() == 0 || t[0] != crate::config::SYSTEM_TOPIC_MARKER,
    ensures
        admits_topic(m, t),
{
    crate::glob_tree::lemma_wildcard_matches_everything(t, false);
    assert(ends_pattern_in(m, seq!['*']) && crate::glob_tree::pattern_matches(seq!['*'], t, false));
}

} // verus!
