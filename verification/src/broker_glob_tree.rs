//! The broker's subscription tree: glob patterns in which only `*` is a wildcard, standing
//! for any run of characters, stored as a tree of characters with reference counts.
use crate::glob_tree::{lex_lt, matched_by, string_views, GlobTree as PatternTree};
use crate::pattern_counts::{counts_after_add, counts_after_take, no_excess_all};
use crate::config;
use crate::glob_tree::{chars_of, ends_pattern_in, matched_below, valid_counts};
use vstd::prelude::*;

verus! {

/// The patterns with counts `m` admit the topic `t`: a system topic (one that starts with
/// the system marker `!`) through the pattern `!`, which admits every system topic, or
/// through a pattern that starts with `!` and matches it; any other topic through any
/// pattern that matches it. A wildcard alone never admits a system topic.
pub open spec fn admits_topic(m: Map<Seq<char>, nat>, t: Seq<char>) -> bool {
    if t.len() > 0 && t[0] == config::SYSTEM_TOPIC_MARKER {
        ends_pattern_in(m, seq![config::SYSTEM_TOPIC_MARKER]) || matched_below(
            m,
            seq![config::SYSTEM_TOPIC_MARKER],
            t,
            1,
            false,
        )
    } else {
        matched_by(m, t, false)
    }
}

/// Without a pattern that starts with the system marker, no system topic is admitted.
pub proof fn lemma_system_topics_need_marker(m: Map<Seq<char>, nat>, t: Seq<char>)
    requires
        valid_counts(m),
        !m.contains_key(seq![config::SYSTEM_TOPIC_MARKER]),
        t.len() > 0,
        t[0] == config::SYSTEM_TOPIC_MARKER,
    ensures
        !admits_topic(m, t),
{
    let p = seq![config::SYSTEM_TOPIC_MARKER];
    assert forall|v: Seq<char>| !#[trigger] ends_pattern_in(m, p + v) by {
        if m.contains_key(p + v) {
            assert(m.contains_key((p + v).take(1)));
            assert((p + v).take(1) =~= p);
        }
    }
}

/// The pattern made of the system marker alone admits every system topic.
pub proof fn lemma_marker_admits_system_topics(m: Map<Seq<char>, nat>, t: Seq<char>)
    requires
        ends_pattern_in(m, seq![config::SYSTEM_TOPIC_MARKER]),
        t.len() > 0,
        t[0] == config::SYSTEM_TOPIC_MARKER,
    ensures
        admits_topic(m, t),
{
}

/// A collection of subscription patterns stored as a tree of characters.
pub struct GlobTree {
    patterns: PatternTree,
}

impl View for GlobTree {
    type V = Map<Seq<char>, nat>;

    /// The reference counts of the nodes of the tree, keyed by path: each node counts the
    /// patterns that pass through it.
    closed spec fn view(&self) -> Map<Seq<char>, nat> {
        self.patterns@
    }
}

impl GlobTree {
    /// The path `w` ends a pattern of the tree.
    pub open spec fn ends_pattern(self, w: Seq<char>) -> bool {
        ends_pattern_in(self@, w)
    }

    /// The number of insertions so far.
    pub closed spec fn insertions(self) -> nat {
        self.patterns.insertions()
    }

    /// No counter of the tree overflows when a pattern is inserted.
    pub open spec fn can_insert(self) -> bool {
        self.insertions() < u64::MAX
    }

    /// Whether a pattern can be inserted without a counter overflowing.
    pub fn has_room(&self) -> (r: bool)
        ensures
            r == self.can_insert(),
            valid_counts(self@),
            no_excess_all(self@),
    {
        self.patterns.has_room()
    }

    /// Create a new, empty tree
    pub fn new() -> (t: GlobTree)
        ensures
            t@ == Map::<Seq<char>, nat>::empty().insert(Seq::empty(), 0),
            t.insertions() == 0,
            valid_counts(t@),
            no_excess_all(t@),
    {
        GlobTree { patterns: PatternTree::new() }
    }

    /// Add a pattern to the tree: every node along the pattern, the root included, gains a
    /// reference, and missing nodes are created.
    pub fn insert(&mut self, pattern: &str)
        requires
            old(self).can_insert(),
        ensures
            final(self)@ == counts_after_add(old(self)@, pattern@),
            final(self).insertions() == old(self).insertions() + 1,
            valid_counts(final(self)@),
            no_excess_all(final(self)@),
    {
        self.patterns.insert(pattern);
    }

    /// Check if a string is matched by a pattern in this tree, `*` standing for any run of
    /// characters and every other character for itself.
    pub fn check(&self, s: &str) -> (r: bool)
        ensures
            r == matched_by(self@, s@, false),
    {
        self.patterns.find_with(s, false).is_some()
    }

    /// Whether the patterns admit the topic: system topics only through the pattern `!` or
    /// through patterns that start with `!`.
    pub fn admits(&self, topic: &str) -> (r: bool)
        ensures
            r == admits_topic(self@, topic@),
    {
        let chars = chars_of(topic);
        if chars.len() > 0 && chars[0] == config::SYSTEM_TOPIC_MARKER {
            let marker = "!";
            proof {
                reveal_strlit("!");
                assert(marker@ =~= seq![config::SYSTEM_TOPIC_MARKER]);
                assert(topic@.len() > 0 && topic@[0] == config::SYSTEM_TOPIC_MARKER);
            }
            if self.patterns.contains(marker) {
                return true;
            }
            let prefix = vec![config::SYSTEM_TOPIC_MARKER];
            proof { assert(prefix@ =~= seq![config::SYSTEM_TOPIC_MARKER]); }
            self.patterns.find_below(&prefix, &chars, 1, false)
        } else {
            self.check(topic)
        }
    }

    /// Returns true if tree contains pattern
    pub fn contains(&self, pattern: &str) -> (r: bool)
        ensures
            r == self.ends_pattern(pattern@),
            valid_counts(self@),
            no_excess_all(self@),
    {
        self.patterns.contains(pattern)
    }

    /// List all patterns in the tree, in lexicographic order
    pub fn list(&self) -> (patterns: Vec<String>)
        ensures
            forall|i: int, j: int| 0 <= i < j < patterns@.len() ==> lex_lt(#[trigger] patterns@[i]@, #[trigger] patterns@[j]@),
            forall|x: Seq<char>| #[trigger] string_views(patterns@).contains(x) <==> self.ends_pattern(x),
    {
        self.patterns.list()
    }

    /// Remove a pattern from the tree. Fails, leaving the tree unchanged, when the tree does
    /// not contain the pattern.
    pub fn remove(&mut self, pattern: &str) -> (r: Result<(), &'static str>)
        ensures
            old(self).ends_pattern(pattern@) ==> r is Ok && final(self)@ == counts_after_take(old(self)@, pattern@),
            !old(self).ends_pattern(pattern@) ==> r == Err::<(), &'static str>("Not found") && final(self)@ == old(self)@,
            final(self).insertions() == old(self).insertions(),
            valid_counts(final(self)@),
            no_excess_all(final(self)@),
    {
        self.patterns.remove(pattern)
    }

    /// The tree holds no pattern.
    pub fn is_empty(&self) -> (r: bool)
        ensures
            r == (self@ == Map::<Seq<char>, nat>::empty().insert(Seq::empty(), 0)),
    {
        self.patterns.is_empty()
    }
}

} // verus!
