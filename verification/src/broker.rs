//! The state of the topic-based broker: the registry of topics with the last message sent on
//! each, and, for one connection, its subscription patterns and the topics it receives.
use crate::config;
use crate::glob_tree::{
    chars_of, ends_pattern_in, glob_matches, lemma_wildcard_matches_everything, matched_below,
    matched_by, pattern_matches, GlobTree,
};
use crate::pattern_counts::{counts_after_add, counts_after_take};
use vstd::prelude::*;
use vstd::string::StringExecFns;

verus! {

/// The character sequences of a sequence of strings.
pub open spec fn names_of(v: Seq<String>) -> Seq<Seq<char>> {
    v.map_values(|s: String| s@)
}

/// No two strings of `v` are equal.
pub open spec fn distinct_names(v: Seq<String>) -> bool {
    forall|i: int, j: int| 0 <= i < j < v.len() ==> (#[trigger] v[i])@ != (#[trigger] v[j])@
}

/// The position of `name` among `names`, if it is there.
fn position(names: &Vec<String>, name: &String) -> (r: Option<usize>)
    ensures
        r is None == !names_of(names@).contains(name@),
        r matches Some(i) ==> i < names@.len() && names@[i as int]@ == name@,
{
    let mut i: usize = 0;
    while i < names.len()
        invariant
            i <= names@.len(),
            forall|j: int| 0 <= j < i ==> (#[trigger] names@[j])@ != name@,
        decreases names@.len() - i,
    {
        if names[i] == *name {
            proof {
                assert(names_of(names@)[i as int] == name@);
            }
            return Some(i);
        }
        i = i + 1;
    }
    proof {
        if names_of(names@).contains(name@) {
            let j = choose|j: int| 0 <= j < names_of(names@).len() && names_of(names@)[j] == name@;
            assert(names@[j]@ == name@);
        }
    }
    None
}

/// The topics of a broker, each with the last message sent on it.
pub struct TopicRegistry<M> {
    names: Vec<String>,
    last: Vec<Option<M>>,
}

/// The registry after a message is sent on topic `t`: the topic exists and holds the message
/// as its last one.
pub open spec fn registry_after_send<M>(v: Map<Seq<char>, Option<M>>, t: Seq<char>, message: M) -> Map<Seq<char>, Option<M>> {
    v.insert(t, Some(message))
}

/// The registry after topic `t` is created: a new topic holds no message; an existing topic
/// is left as it is.
pub open spec fn registry_after_create<M>(v: Map<Seq<char>, Option<M>>, t: Seq<char>) -> Map<Seq<char>, Option<M>> {
    if v.contains_key(t) {
        v
    } else {
        v.insert(t, None)
    }
}

impl<M> View for TopicRegistry<M> {
    type V = Map<Seq<char>, Option<M>>;

    /// Each topic's name mapped to the last message sent on it.
    closed spec fn view(&self) -> Map<Seq<char>, Option<M>> {
        Map::new(
            |k: Seq<char>| names_of(self.names@).contains(k),
            |k: Seq<char>| self.last@[names_of(self.names@).index_of(k)],
        )
    }
}

impl<M> TopicRegistry<M> {
    #[verifier::type_invariant]
    closed spec fn inv(self) -> bool {
        &&& self.names@.len() == self.last@.len()
        &&& distinct_names(self.names@)
    }

    proof fn lemma_index(self, i: int)
        requires
            self.inv(),
            0 <= i < self.names@.len(),
        ensures
            self@.contains_key(self.names@[i]@),
            self@[self.names@[i]@] == self.last@[i],
            names_of(self.names@).index_of(self.names@[i]@) == i,
    {
        let ns = names_of(self.names@);
        assert(ns[i] == self.names@[i]@);
        assert(ns.contains(self.names@[i]@));
        let j = ns.index_of(self.names@[i]@);
        assert(0 <= j < ns.len() && ns[j] == ns[i]);
        assert(self.names@[j]@ == self.names@[i]@);
        if j != i {
            if j < i {
                assert(self.names@[j]@ != self.names@[i]@);
            } else {
                assert(self.names@[i]@ != self.names@[j]@);
            }
        }
    }

    /// A registry without topics.
    pub fn new() -> (r: TopicRegistry<M>)
        ensures
            r@ == Map::<Seq<char>, Option<M>>::empty(),
    {
        let r = TopicRegistry { names: Vec::new(), last: Vec::new() };
        proof {
            assert(r@ =~= Map::<Seq<char>, Option<M>>::empty());
        }
        r
    }

    /// Whether the topic exists.
    pub fn contains(&self, name: &str) -> (r: bool)
        ensures
            r == self@.contains_key(name@),
    {
        let key = String::from_str(name);
        position(&self.names, &key).is_some()
    }

    /// Add a topic to the end of the lists, holding `message`.
    fn push_topic(&mut self, key: String, message: Option<M>)
        requires
            !old(self)@.contains_key(key@),
        ensures
            final(self)@ == old(self)@.insert(key@, message),
    {
        proof { use_type_invariant(&*self); }
        let ghost old_names = self.names@;
        let ghost old_view = self@;
        let ghost n = self.names@.len() as int;
        let mut taken = TopicRegistry { names: Vec::new(), last: Vec::new() };
        std::mem::swap(&mut taken, self);
        proof { use_type_invariant(&taken); }
        let TopicRegistry { mut names, mut last } = taken;
        names.push(key);
        last.push(message);
        proof {
            assert(names_of(names@) =~= names_of(old_names).push(key@));
            assert forall|i: int, j: int| 0 <= i < j < names@.len() implies (#[trigger] names@[i])@ != (#[trigger] names@[j])@ by {
                if j == n {
                    assert(names_of(old_names)[i] == names@[i]@);
                }
            }
        }
        *self = TopicRegistry { names, last };
        proof {
            use_type_invariant(&*self);
            assert forall|k: Seq<char>| #[trigger] self@.contains_key(k) == old_view.insert(key@, message).contains_key(k) by {
                let ns = names_of(self.names@);
                let os = names_of(old_names);
                assert(ns == os.push(key@));
                if os.contains(k) {
                    let j = choose|j: int| 0 <= j < os.len() && os[j] == k;
                    assert(ns[j] == k);
                }
                if k == key@ {
                    assert(ns[os.len() as int] == k);
                }
                if ns.contains(k) {
                    let j = choose|j: int| 0 <= j < ns.len() && ns[j] == k;
                    if j < os.len() {
                        assert(os[j] == k);
                    }
                }
            }
            assert forall|k: Seq<char>| #[trigger] self@.contains_key(k) implies self@[k] == old_view.insert(key@, message)[k] by {
                let i = names_of(self.names@).index_of(k);
                self.lemma_index(i);
                if i < n {
                    assert(names_of(old_names)[i] == k);
                    assert(old_view.contains_key(k));
                    let j = names_of(old_names).index_of(k);
                    assert(old_names[j]@ == k);
                    assert(self.names@[j]@ == k);
                    self.lemma_index(j);
                }
            }
            assert(self@ =~= old_view.insert(key@, message));
        }
    }

    /// Create a topic, unless it exists: answers whether it was created.
    pub fn create_topic(&mut self, name: &str) -> (created: bool)
        ensures
            created == !old(self)@.contains_key(name@),
            final(self)@ == registry_after_create(old(self)@, name@),
    {
        let key = String::from_str(name);
        if position(&self.names, &key).is_some() {
            return false;
        }
        self.push_topic(key, None);
        true
    }

    /// Send a message on a topic, creating the topic when it does not exist: the message
    /// becomes the topic's last one. Answers whether the topic was created.
    pub fn send(&mut self, name: &str, message: M) -> (created: bool)
        ensures
            created == !old(self)@.contains_key(name@),
            final(self)@ == registry_after_send(old(self)@, name@, message),
    {
        proof { use_type_invariant(&*self); }
        let key = String::from_str(name);
        match position(&self.names, &key) {
            Some(i) => {
                let ghost old_view = self@;
                let ghost old_names = self.names@;
                let mut taken = TopicRegistry { names: Vec::new(), last: Vec::new() };
                std::mem::swap(&mut taken, self);
                proof { use_type_invariant(&taken); }
                let TopicRegistry { names, mut last } = taken;
                last.set(i, Some(message));
                *self = TopicRegistry { names, last };
                proof {
                    use_type_invariant(&*self);
                    assert forall|k: Seq<char>| #[trigger] self@.contains_key(k) implies self@[k] == old_view.insert(name@, Some(message))[k] by {
                        let j = names_of(self.names@).index_of(k);
                        self.lemma_index(j);
                        if k != name@ {
                            assert(j != i);
                        }
                    }
                    assert(self@.dom() =~= old_view.insert(name@, Some(message)).dom());
                    assert(self@ =~= old_view.insert(name@, Some(message)));
                }
                false
            },
            None => {
                self.push_topic(key, Some(message));
                true
            },
        }
    }

    /// The last message of a topic, when the topic exists (`None` inside when nothing was
    /// sent on it yet).
    pub fn subscribe_to_topic(&self, name: &str) -> (r: Option<&Option<M>>)
        ensures
            r is Some == self@.contains_key(name@),
            r matches Some(m) ==> *m == self@[name@],
    {
        proof { use_type_invariant(&*self); }
        let key = String::from_str(name);
        match position(&self.names, &key) {
            Some(i) => {
                proof { self.lemma_index(i as int); }
                Some(&self.last[i])
            },
            None => None,
        }
    }

    /// List all current topics, each once.
    pub fn list_topics(&self) -> (topics: Vec<String>)
        ensures
            distinct_names(topics@),
            forall|k: Seq<char>| #[trigger] names_of(topics@).contains(k) == self@.contains_key(k),
    {
        proof { use_type_invariant(&*self); }
        let topics = self.names.clone();
        proof {
            assert(topics@ =~= self.names@) by {
                assert forall|j: int| 0 <= j < topics@.len() implies topics@[j] == self.names@[j] by {}
            }
        }
        topics
    }
}

/// Reading a topic right after a message was sent on it gives back that message, and the
/// other topics are left as they were.
pub proof fn lemma_read_after_send<M>(v: Map<Seq<char>, Option<M>>, t: Seq<char>, message: M, other: Seq<char>)
    requires
        other != t,
    ensures
        registry_after_send(v, t, message).contains_key(t),
        registry_after_send(v, t, message)[t] == Some(message),
        registry_after_send(v, t, message).contains_key(other) == v.contains_key(other),
        v.contains_key(other) ==> registry_after_send(v, t, message)[other] == v[other],
{
}

/// Creating a topic twice is creating it once: the second creation finds it and changes
/// nothing, and a message sent before it stays the topic's last one.
pub proof fn lemma_create_idempotent<M>(v: Map<Seq<char>, Option<M>>, t: Seq<char>)
    ensures
        registry_after_create(v, t).contains_key(t),
        registry_after_create(registry_after_create(v, t), t) == registry_after_create(v, t),
        v.contains_key(t) ==> registry_after_create(v, t)[t] == v[t],
{
}

/// Sending on a topic that was just created is the same as sending on it directly.
pub proof fn lemma_send_after_create<M>(v: Map<Seq<char>, Option<M>>, t: Seq<char>, message: M)
    ensures
        registry_after_send(registry_after_create(v, t), t, message) == registry_after_send(v, t, message),
{
    assert(registry_after_send(registry_after_create(v, t), t, message) =~= registry_after_send(v, t, message));
}

/// Whether `prefix` starts `s`.
pub fn has_prefix(s: &str, prefix: &str) -> (r: bool)
    ensures
        r == prefix@.is_prefix_of(s@),
{
    let sc = chars_of(s);
    let pc = chars_of(prefix);
    if pc.len() > sc.len() {
        return false;
    }
    let mut i: usize = 0;
    while i < pc.len()
        invariant
            pc@ == prefix@,
            sc@ == s@,
            pc@.len() <= sc@.len(),
            i <= pc@.len(),
            forall|j: int| 0 <= j < i ==> pc@[j] == sc@[j],
        decreases pc@.len() - i,
    {
        if pc[i] != sc[i] {
            return false;
        }
        i = i + 1;
    }
    proof {
        assert(s@.subrange(0, prefix@.len() as int) =~= prefix@);
    }
    true
}

/// A topic is admitted through a matching pattern unless it is a system topic and the
/// pattern is not a system pattern.
pub open spec fn admits(topic: Seq<char>, pattern: Seq<char>) -> bool {
    !config::SYSTEM_TOPIC_PREFIX@.is_prefix_of(topic) || config::SYSTEM_TOPIC_PREFIX@.is_prefix_of(pattern)
}

/// Whether a topic matched by `pattern` is admitted: system topics only through system
/// patterns.
pub fn admits_topic(topic: &str, pattern: &str) -> (r: bool)
    ensures
        r == admits(topic@, pattern@),
{
    let is_system_topic = has_prefix(topic, config::SYSTEM_TOPIC_PREFIX);
    let pattern_matches_system = has_prefix(pattern, config::SYSTEM_TOPIC_PREFIX);
    !is_system_topic || pattern_matches_system
}

/// Some pattern of a tree with counts `m` matches the topic `t`.
pub open spec fn tree_matches(m: Map<Seq<char>, nat>, t: Seq<char>) -> bool {
    matched_by(m, t, true)
}

/// The patterns with counts `m` admit the topic `t`: a system topic only through a pattern
/// that starts with the system prefix and whose rest matches the topic's rest, any other
/// topic through any pattern that matches it.
pub open spec fn admitted(m: Map<Seq<char>, nat>, t: Seq<char>) -> bool {
    if config::SYSTEM_TOPIC_PREFIX@.is_prefix_of(t) {
        matched_below(m, config::SYSTEM_TOPIC_PREFIX@, t, config::SYSTEM_TOPIC_PREFIX@.len() as int, true)
    } else {
        tree_matches(m, t)
    }
}

/// A pattern that starts with a run of plain characters, which the string also starts with,
/// matches the string exactly when its rest matches the string's rest.
proof fn lemma_literal_prefix(pre: Seq<char>, v: Seq<char>, t: Seq<char>)
    requires
        pre.is_prefix_of(t),
        forall|i: int| 0 <= i < pre.len() ==> #[trigger] pre[i] != '*' && pre[i] != '?',
    ensures
        pattern_matches(pre + v, t, true) == pattern_matches(v, t.skip(pre.len() as int), true),
    decreases pre.len(),
{
    if pre.len() > 0 {
        let w = pre + v;
        assert(w[0] == pre[0]);
        assert(t[0] == pre[0]);
        assert(w.drop_first() =~= pre.drop_first() + v);
        assert(pre.drop_first().is_prefix_of(t.drop_first())) by {
            assert(t.drop_first().subrange(0, pre.drop_first().len() as int) =~= pre.drop_first());
        }
        assert forall|i: int| 0 <= i < pre.drop_first().len() implies #[trigger] pre.drop_first()[i] != '*'
            && pre.drop_first()[i] != '?' by {
            assert(pre.drop_first()[i] == pre[i + 1]);
        }
        lemma_literal_prefix(pre.drop_first(), v, t.drop_first());
        assert(t.drop_first().skip(pre.drop_first().len() as int) =~= t.skip(pre.len() as int));
    } else {
        assert(pre + v =~= v);
        assert(t.skip(0) =~= t);
    }
}

/// The patterns admit a topic exactly when some stored pattern matches it and admits it: a
/// system topic only through a system pattern.
pub proof fn lemma_admitted_iff(m: Map<Seq<char>, nat>, t: Seq<char>)
    ensures
        admitted(m, t) == exists|p: Seq<char>| #[trigger] ends_pattern_in(m, p) && glob_matches(p, t) && admits(t, p),
{
    let pre = config::SYSTEM_TOPIC_PREFIX@;
    reveal_strlit("!system");
    assert(pre =~= seq!['!', 's', 'y', 's', 't', 'e', 'm']);
    assert forall|i: int| 0 <= i < pre.len() implies #[trigger] pre[i] != '*' && pre[i] != '?' by {}
    if pre.is_prefix_of(t) {
        if admitted(m, t) {
            let v = choose|v: Seq<char>| #[trigger] ends_pattern_in(m, pre + v) && pattern_matches(v, t.skip(pre.len() as int), true);
            lemma_literal_prefix(pre, v, t);
            assert(pre.is_prefix_of(pre + v)) by {
                assert((pre + v).subrange(0, pre.len() as int) =~= pre);
            }
            assert(ends_pattern_in(m, pre + v) && glob_matches(pre + v, t) && admits(t, pre + v));
        }
        if exists|p: Seq<char>| #[trigger] ends_pattern_in(m, p) && glob_matches(p, t) && admits(t, p) {
            let p = choose|p: Seq<char>| #[trigger] ends_pattern_in(m, p) && glob_matches(p, t) && admits(t, p);
            let v = p.skip(pre.len() as int);
            assert(p =~= pre + v);
            lemma_literal_prefix(pre, v, t);
            assert(ends_pattern_in(m, pre + v) && pattern_matches(v, t.skip(pre.len() as int), true));
        }
    } else {
        if admitted(m, t) {
            let p = choose|p: Seq<char>| #[trigger] ends_pattern_in(m, p) && pattern_matches(p, t, true);
            assert(ends_pattern_in(m, p) && glob_matches(p, t) && admits(t, p));
        }
    }
}

/// A tree holding the pattern `*` matches every topic: a connection subscribed to `*`
/// receives every topic that is not a system topic.
pub proof fn lemma_star_matches_every_topic(m: Map<Seq<char>, nat>, t: Seq<char>)
    requires
        ends_pattern_in(m, seq!['*']),
    ensures
        tree_matches(m, t),
{
    lemma_wildcard_matches_everything(t, true);
    assert(ends_pattern_in(m, seq!['*']) && pattern_matches(seq!['*'], t, true));
}

/// The topics of `existing` that a subscription picks up, in their order: each one that the
/// counts `m` match and that is neither among `known` nor picked before.
pub open spec fn picked_topics(existing: Seq<Seq<char>>, known: Seq<Seq<char>>, m: Map<Seq<char>, nat>) -> Seq<Seq<char>>
    decreases existing.len(),
{
    if existing.len() == 0 {
        Seq::empty()
    } else {
        let before = picked_topics(existing.drop_last(), known, m);
        let t = existing.last();
        if tree_matches(m, t) && !(known + before).contains(t) {
            before.push(t)
        } else {
            before
        }
    }
}

/// The topics of `topics`, in their order, that the counts `m` match (with `keep`) or do
/// not match (without it).
pub open spec fn sorted_out(topics: Seq<Seq<char>>, m: Map<Seq<char>, nat>, keep: bool) -> Seq<Seq<char>> {
    topics.filter(|t: Seq<char>| tree_matches(m, t) == keep)
}

/// The subscription patterns of one connection and the topics it receives.
pub struct ConnectionTopics {
    subscriptions: GlobTree,
    topics: Vec<String>,
}

impl ConnectionTopics {
    #[verifier::type_invariant]
    closed spec fn inv(self) -> bool {
        distinct_names(self.topics@)
    }

    /// The counts of the subscription tree.
    pub closed spec fn patterns(self) -> Map<Seq<char>, nat> {
        self.subscriptions@
    }

    /// The topics received, in the order they were added.
    pub closed spec fn topics(self) -> Seq<Seq<char>> {
        names_of(self.topics@)
    }

    /// No counter of the subscription tree overflows when a pattern is added.
    pub closed spec fn can_subscribe(self) -> bool {
        self.subscriptions.can_insert()
    }

    /// Whether a pattern can be subscribed without a counter overflowing.
    pub fn has_room(&self) -> (r: bool)
        ensures
            r == self.can_subscribe(),
    {
        self.subscriptions.has_room()
    }

    /// A connection without subscriptions or topics.
    pub fn new() -> (c: ConnectionTopics)
        ensures
            c.patterns() == Map::<Seq<char>, nat>::empty().insert(Seq::empty(), 0),
            c.topics() == Seq::<Seq<char>>::empty(),
            c.can_subscribe(),
    {
        let c = ConnectionTopics { subscriptions: GlobTree::new(), topics: Vec::new() };
        proof {
            assert(names_of(c.topics@) =~= Seq::<Seq<char>>::empty());
        }
        c
    }

    /// Whether the connection receives the topic.
    pub fn is_receiving(&self, topic: &str) -> (r: bool)
        ensures
            r == self.topics().contains(topic@),
    {
        let key = String::from_str(topic);
        position(&self.topics, &key).is_some()
    }

    /// Start receiving a topic, unless it is received already: answers whether it was added.
    pub fn subscribe_to_topic(&mut self, topic: &str) -> (added: bool)
        ensures
            added == !old(self).topics().contains(topic@),
            final(self).topics() == (if added { old(self).topics().push(topic@) } else { old(self).topics() }),
            final(self).patterns() == old(self).patterns(),
            final(self).can_subscribe() == old(self).can_subscribe(),
    {
        proof { use_type_invariant(&*self); }
        let key = String::from_str(topic);
        if position(&self.topics, &key).is_some() {
            return false;
        }
        let ghost old_topics = self.topics@;
        let mut topics = Vec::new();
        std::mem::swap(&mut topics, &mut self.topics);
        topics.push(key);
        proof {
            assert(names_of(topics@) =~= names_of(old_topics).push(topic@));
            assert forall|i: int, j: int| 0 <= i < j < topics@.len() implies (#[trigger] topics@[i])@ != (#[trigger] topics@[j])@ by {
                if j == old_topics.len() {
                    assert(names_of(old_topics)[i] == topics@[i]@);
                }
            }
        }
        self.topics = topics;
        true
    }

    /// Subscribe to a pattern, then start receiving every topic of `existing` that a pattern
    /// now matches and that is not received yet. Answers the topics added, in the order of
    /// `existing`.
    pub fn handle_subscribe(&mut self, pattern: &str, existing: &Vec<String>) -> (added: Vec<String>)
        requires
            old(self).can_subscribe(),
        ensures
            final(self).patterns() == counts_after_add(old(self).patterns(), pattern@),
            final(self).topics() == old(self).topics() + names_of(added@),
            names_of(added@) == picked_topics(names_of(existing@), old(self).topics(), final(self).patterns()),
            distinct_names(added@),
            forall|t: Seq<char>| #[trigger] names_of(added@).contains(t) ==> names_of(existing@).contains(t)
                && tree_matches(final(self).patterns(), t) && !old(self).topics().contains(t),
            forall|t: Seq<char>| names_of(existing@).contains(t) && tree_matches(final(self).patterns(), t)
                ==> #[trigger] final(self).topics().contains(t),
    {
        proof { use_type_invariant(&*self); }
        let mut subscriptions = GlobTree::new();
        std::mem::swap(&mut subscriptions, &mut self.subscriptions);
        subscriptions.insert(pattern);
        self.subscriptions = subscriptions;
        let ghost mid = self.topics();
        let mut added: Vec<String> = Vec::new();
        let mut i: usize = 0;
        while i < existing.len()
            invariant
                i <= existing@.len(),
                self.patterns() == counts_after_add(old(self).patterns(), pattern@),
                mid == old(self).topics(),
                self.topics() == mid + names_of(added@),
                names_of(added@) == picked_topics(names_of(existing@).take(i as int), mid, self.patterns()),
                forall|t: Seq<char>| #[trigger] names_of(added@).contains(t) ==> names_of(existing@).contains(t)
                    && tree_matches(self.patterns(), t) && !mid.contains(t),
                forall|j: int| 0 <= j < i && tree_matches(self.patterns(), (#[trigger] existing@[j])@)
                    ==> self.topics().contains(existing@[j]@),
            decreases existing@.len() - i,
        {
            let t = &existing[i];
            let ts = t.as_str();
            let ghost tv = t@;
            proof {
                assert(names_of(existing@)[i as int] == tv);
                assert(names_of(existing@).take(i + 1).drop_last() =~= names_of(existing@).take(i as int));
                assert(names_of(existing@).take(i + 1).last() == tv);
            }
            let matched = self.subscriptions.check(ts);
            let ghost before = self.topics();
            let ghost prev = added@;
            if matched {
                if self.subscribe_to_topic(ts) {
                    added.push(t.clone());
                    proof {
                        assert(names_of(added@) =~= names_of(prev).push(tv));
                        assert(self.topics() =~= mid + names_of(added@));
                        assert forall|u: Seq<char>| #[trigger] names_of(added@).contains(u) implies names_of(existing@).contains(u)
                            && tree_matches(self.patterns(), u) && !mid.contains(u) by {
                            let k = choose|k: int| 0 <= k < names_of(added@).len() && names_of(added@)[k] == u;
                            if k < names_of(prev).len() {
                                assert(names_of(prev)[k] == u);
                                assert(names_of(prev).contains(u));
                            } else {
                                assert(u == tv);
                                if mid.contains(tv) {
                                    let k2 = choose|k2: int| 0 <= k2 < mid.len() && mid[k2] == tv;
                                    assert(before[k2] == tv);
                                }
                            }
                        }
                        assert(self.topics()[self.topics().len() - 1] == tv);
                    }
                }
                proof {
                    assert(self.topics().contains(tv));
                }
            }
            proof {
                assert forall|j: int| 0 <= j < i + 1 && tree_matches(self.patterns(), (#[trigger] existing@[j])@)
                    implies self.topics().contains(existing@[j]@) by {
                    if j < i {
                        let k = choose|k: int| 0 <= k < before.len() && before[k] == existing@[j]@;
                        assert(self.topics()[k] == before[k]);
                    }
                }
            }
            i = i + 1;
        }
        proof {
            use_type_invariant(&*self);
            assert(names_of(existing@).take(existing@.len() as int) =~= names_of(existing@));
            assert forall|a: int, b: int| 0 <= a < b < added@.len() implies (#[trigger] added@[a])@ != (#[trigger] added@[b])@ by {
                assert(names_of(self.topics@)[mid.len() + a] == added@[a]@);
                assert(names_of(self.topics@)[mid.len() + b] == added@[b]@);
                assert(self.topics@[mid.len() + a]@ == added@[a]@);
                assert(self.topics@[mid.len() + b]@ == added@[b]@);
            }
        }
        added
    }

    /// Drop a subscription pattern (nothing changes when it was not subscribed), then stop
    /// receiving every topic that no remaining pattern matches. Answers the topics dropped.
    pub fn handle_unsubscribe(&mut self, pattern: &str) -> (dropped: Vec<String>)
        ensures
            final(self).patterns() == (if ends_pattern_in(old(self).patterns(), pattern@) {
                counts_after_take(old(self).patterns(), pattern@)
            } else {
                old(self).patterns()
            }),
            final(self).topics() == sorted_out(old(self).topics(), final(self).patterns(), true),
            names_of(dropped@) == sorted_out(old(self).topics(), final(self).patterns(), false),
            forall|t: Seq<char>| #[trigger] final(self).topics().contains(t) == (old(self).topics().contains(t)
                && tree_matches(final(self).patterns(), t)),
            forall|t: Seq<char>| #[trigger] names_of(dropped@).contains(t) == (old(self).topics().contains(t)
                && !tree_matches(final(self).patterns(), t)),
            final(self).can_subscribe() == old(self).can_subscribe(),
    {
        proof { use_type_invariant(&*self); }
        let mut taken = ConnectionTopics { subscriptions: GlobTree::new(), topics: Vec::new() };
        proof {
            assert(names_of(taken.topics@) =~= Seq::<Seq<char>>::empty());
        }
        std::mem::swap(&mut taken, self);
        proof { use_type_invariant(&taken); }
        let ConnectionTopics { mut subscriptions, topics } = taken;
        let _ = subscriptions.remove(pattern);
        let ghost m = subscriptions@;
        let ghost old_topics = names_of(topics@);
        let mut kept: Vec<String> = Vec::new();
        let mut dropped: Vec<String> = Vec::new();
        let mut i: usize = 0;
        while i < topics.len()
            invariant
                i <= topics@.len(),
                old_topics == names_of(topics@),
                distinct_names(topics@),
                m == subscriptions@,
                distinct_names(kept@),
                names_of(kept@) == sorted_out(old_topics.take(i as int), m, true),
                names_of(dropped@) == sorted_out(old_topics.take(i as int), m, false),
                forall|u: Seq<char>| #[trigger] names_of(kept@).contains(u) == (old_topics.take(i as int).contains(u)
                    && tree_matches(m, u)),
                forall|u: Seq<char>| #[trigger] names_of(dropped@).contains(u) == (old_topics.take(i as int).contains(u)
                    && !tree_matches(m, u)),
            decreases topics@.len() - i,
        {
            let t = &topics[i];
            let ts = t.as_str();
            let matched = subscriptions.check(ts);
            let ghost tv = t@;
            proof {
                assert(old_topics[i as int] == tv);
                assert(old_topics.take(i as int + 1) =~= old_topics.take(i as int).push(tv));
                assert(!old_topics.take(i as int).contains(tv)) by {
                    if old_topics.take(i as int).contains(tv) {
                        let j = choose|j: int| 0 <= j < i && old_topics.take(i as int)[j] == tv;
                        assert(topics@[j]@ == topics@[i as int]@);
                    }
                }
            }
            let ghost prev_kept = kept@;
            let ghost prev_dropped = dropped@;
            proof {
                let t1 = old_topics.take(i as int + 1);
                assert(t1.drop_last() =~= old_topics.take(i as int));
                assert(t1.last() == tv);
                reveal(Seq::filter);
                assert(sorted_out(t1, m, true) == (if tree_matches(m, tv) {
                    sorted_out(old_topics.take(i as int), m, true).push(tv)
                } else {
                    sorted_out(old_topics.take(i as int), m, true)
                }));
                assert(sorted_out(t1, m, false) == (if !tree_matches(m, tv) {
                    sorted_out(old_topics.take(i as int), m, false).push(tv)
                } else {
                    sorted_out(old_topics.take(i as int), m, false)
                }));
            }
            if matched {
                kept.push(t.clone());
                proof {
                    assert(names_of(kept@) =~= names_of(prev_kept).push(tv));
                    assert forall|a: int, b: int| 0 <= a < b < kept@.len() implies (#[trigger] kept@[a])@ != (#[trigger] kept@[b])@ by {
                        if b == prev_kept.len() {
                            assert(names_of(prev_kept)[a] == kept@[a]@);
                            assert(names_of(prev_kept).contains(kept@[a]@));
                        }
                    }
                }
            } else {
                dropped.push(t.clone());
                proof {
                    assert(names_of(dropped@) =~= names_of(prev_dropped).push(tv));
                }
            }
            proof {
                assert forall|u: Seq<char>| #[trigger] names_of(kept@).contains(u) == (old_topics.take(i as int + 1).contains(u)
                    && tree_matches(m, u)) by {
                    let pk = names_of(prev_kept);
                    let nk = names_of(kept@);
                    let ot = old_topics.take(i as int);
                    if nk.contains(u) {
                        let j = choose|j: int| 0 <= j < nk.len() && nk[j] == u;
                        if j < pk.len() {
                            assert(pk[j] == u);
                            assert(pk.contains(u));
                            let q = choose|q: int| 0 <= q < ot.len() && ot[q] == u;
                            assert(old_topics.take(i as int + 1)[q] == u);
                        } else {
                            assert(old_topics.take(i as int + 1)[i as int] == u);
                        }
                    }
                    if old_topics.take(i as int + 1).contains(u) && tree_matches(m, u) {
                        let ot1 = old_topics.take(i as int + 1);
                        let q = choose|q: int| 0 <= q < ot1.len() && ot1[q] == u;
                        if q < i {
                            assert(ot[q] == u);
                            assert(pk.contains(u));
                            let j = choose|j: int| 0 <= j < pk.len() && pk[j] == u;
                            assert(nk[j] == u);
                        } else {
                            assert(nk[nk.len() - 1] == u);
                        }
                    }
                }
                assert forall|u: Seq<char>| #[trigger] names_of(dropped@).contains(u) == (old_topics.take(i as int + 1).contains(u)
                    && !tree_matches(m, u)) by {
                    let pd = names_of(prev_dropped);
                    let nd = names_of(dropped@);
                    let ot = old_topics.take(i as int);
                    if nd.contains(u) {
                        let j = choose|j: int| 0 <= j < nd.len() && nd[j] == u;
                        if j < pd.len() {
                            assert(pd[j] == u);
                            assert(pd.contains(u));
                            let q = choose|q: int| 0 <= q < ot.len() && ot[q] == u;
                            assert(old_topics.take(i as int + 1)[q] == u);
                        } else {
                            assert(old_topics.take(i as int + 1)[i as int] == u);
                        }
                    }
                    if old_topics.take(i as int + 1).contains(u) && !tree_matches(m, u) {
                        let ot1 = old_topics.take(i as int + 1);
                        let q = choose|q: int| 0 <= q < ot1.len() && ot1[q] == u;
                        if q < i {
                            assert(ot[q] == u);
                            assert(pd.contains(u));
                            let j = choose|j: int| 0 <= j < pd.len() && pd[j] == u;
                            assert(nd[j] == u);
                        } else {
                            assert(nd[nd.len() - 1] == u);
                        }
                    }
                }
            }
            i = i + 1;
        }
        proof {
            assert(old_topics.take(topics@.len() as int) =~= old_topics);
        }
        *self = ConnectionTopics { subscriptions, topics: kept };
        dropped
    }

    /// Whether the patterns admit the topic: a system topic only through a pattern that
    /// starts with the system prefix, any other topic through any matching pattern.
    fn admits_name(&self, topic: &str) -> (r: bool)
        ensures
            r == admitted(self.patterns(), topic@),
    {
        if has_prefix(topic, config::SYSTEM_TOPIC_PREFIX) {
            let chars = chars_of(topic);
            let prefix = chars_of(config::SYSTEM_TOPIC_PREFIX);
            self.subscriptions.find_below(&prefix, &chars, prefix.len(), true)
        } else {
            self.subscriptions.check(topic)
        }
    }

    /// A topic was created on the broker: start receiving it when a pattern matches it and
    /// admits it (a system topic only through a system pattern), unless it is received
    /// already. Answers whether it was added.
    pub fn handle_new_topic(&mut self, name: &str) -> (added: bool)
        ensures
            final(self).patterns() == old(self).patterns(),
            added == (admitted(old(self).patterns(), name@) && !old(self).topics().contains(name@)),
            final(self).topics() == (if added { old(self).topics().push(name@) } else { old(self).topics() }),
            final(self).can_subscribe() == old(self).can_subscribe(),
    {
        if self.admits_name(name) {
            self.subscribe_to_topic(name)
        } else {
            false
        }
    }

    /// Whether a message published on `topic` is forwarded to the client: a pattern must
    /// match the topic and admit it (a system topic only through a system pattern).
    pub fn forwards(&self, topic: &str) -> (r: bool)
        ensures
            r == admitted(self.patterns(), topic@),
    {
        self.admits_name(topic)
    }
}

} // verus!
