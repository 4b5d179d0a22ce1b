//! The decisions of one broker connection: which published messages it forwards to its
//! client, how the client's commands change its subscriptions, and where each command that
//! the client sends is routed.
use crate::datagram::{Command, Message};
use crate::broker_glob_tree::{admits_topic, GlobTree};
use crate::glob_tree::ends_pattern_in;
use crate::pattern_counts::{counts_after_add, counts_after_take};
use vstd::prelude::*;

verus! {

/// The subscriptions of one connection, deciding which published messages are forwarded.
pub struct CommandProcessor {
    subscriptions: GlobTree,
}

impl View for CommandProcessor {
    type V = Map<Seq<char>, nat>;

    /// The counts of the subscription tree.
    closed spec fn view(&self) -> Map<Seq<char>, nat> {
        self.subscriptions@
    }
}

impl CommandProcessor {
    /// The number of subscriptions so far.
    pub closed spec fn subscriptions(self) -> nat {
        self.subscriptions.insertions()
    }

    /// No counter of the subscription tree overflows when a pattern is added.
    pub open spec fn can_subscribe(self) -> bool {
        self.subscriptions() < u64::MAX
    }

    /// Whether a pattern can be subscribed without a counter overflowing.
    pub fn has_room(&self) -> (r: bool)
        ensures
            r == self.can_subscribe(),
    {
        self.subscriptions.has_room()
    }

    /// A processor without subscriptions.
    pub fn new() -> (p: CommandProcessor)
        ensures
            p@ == Map::<Seq<char>, nat>::empty().insert(Seq::empty(), 0),
            p.can_subscribe(),
    {
        CommandProcessor { subscriptions: GlobTree::new() }
    }

    /// A message published on `topic` is forwarded when the subscriptions admit the topic:
    /// a pattern matches it, and a system topic (starting with `!`) only through the pattern
    /// `!` or a pattern that starts with `!`.
    pub fn should_forward(&self, topic: &str) -> (r: bool)
        ensures
            r == admits_topic(self@, topic@),
    {
        self.subscriptions.admits(topic)
    }

    /// Apply a command of the client: a subscription adds its pattern, an unsubscription
    /// removes its pattern (answering with a warning when the pattern was not subscribed),
    /// and a publication leaves the subscriptions alone.
    pub fn handle_command(&mut self, command: &Command) -> (warning: Option<&'static str>)
        requires
            command is Subscribe ==> old(self).can_subscribe(),
        ensures
            match command {
                Command::Subscribe { pattern } => final(self)@ == counts_after_add(old(self)@, pattern@)
                    && warning is None,
                Command::Unsubscribe { pattern } => if ends_pattern_in(old(self)@, pattern@) {
                    final(self)@ == counts_after_take(old(self)@, pattern@) && warning is None
                } else {
                    final(self)@ == old(self)@ && warning == Some("Not found")
                },
                Command::Publish { .. } => final(self)@ == old(self)@ && warning is None,
            },
            !(command is Subscribe) ==> final(self).can_subscribe() == old(self).can_subscribe(),
            command is Subscribe ==> final(self).subscriptions() == old(self).subscriptions() + 1,
    {
        match command {
            Command::Subscribe { pattern } => {
                self.subscriptions.insert(pattern.as_str());
                None
            },
            Command::Unsubscribe { pattern } => {
                match self.subscriptions.remove(pattern.as_str()) {
                    Ok(_) => None,
                    Err(e) => Some(e),
                }
            },
            Command::Publish { .. } => None,
        }
    }
}

/// Where a command received from a client goes.
pub enum Route {
    /// A published message goes to every connection.
    Broadcast(Message),
    /// A subscription change goes to the client's own connection.
    Connection(Command),
}

/// Route a command received from a client: publications are broadcast, subscription
/// changes go to the client's connection.
pub fn route(command: Command) -> (r: Route)
    ensures
        match command {
            Command::Publish { message } => r == Route::Broadcast(message),
            _ => r == Route::Connection(command),
        },
{
    match command {
        Command::Publish { message } => Route::Broadcast(message),
        _ => Route::Connection(command),
    }
}

} // verus!
