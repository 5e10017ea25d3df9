//! Live notifications: who receives what, and when a receiver is let go.
//!
//! A receiver is a number; the caller owns the channel behind it, tries to send, and hands
//! back how each attempt ended.

use std::sync::Arc;

use ahash::RandomState;
use vstd::prelude::*;

use crate::keeper::error::KeeperError;
use crate::ledger::outcome::TransactionResult;
use crate::types::Signature;

verus! {

/// Number of a receiver.
pub type Receiver = u64;

/// Receivers by topic.
pub type RegistrationMap = scc::HashMap<Vec<u8>, Vec<Receiver>, RandomState>;

/// What the entries of an `scc::HashMap` of receivers are.
pub uninterp spec fn registrations(map: RegistrationMap) -> Map<Seq<u8>, Seq<Receiver>>;

/// An empty map, by `scc::HashMap::default`.
#[verifier::external_body]
fn registrations_new() -> (map: RegistrationMap)
    ensures
        registrations(map).dom() == Set::<Seq<u8>>::empty(),
{
    scc::HashMap::default()
}

/// Copies the receivers of a topic, by `scc::HashMap::read_sync`.
#[verifier::external_body]
fn registrations_read(map: &RegistrationMap, topic: &[u8]) -> (list: Option<Vec<Receiver>>)
    ensures
        list is Some <==> registrations(*map).contains_key(topic@),
        list matches Some(l) ==> l@ == registrations(*map)[topic@],
{
    map.read_sync(&topic.to_vec(), |_, list| list.clone())
}

/// Stores the receivers of a topic, by `scc::HashMap::upsert_sync`.
#[verifier::external_body]
fn registrations_upsert(map: &mut RegistrationMap, topic: &[u8], list: Vec<Receiver>)
    ensures
        registrations(*final(map)) == registrations(*old(map)).insert(topic@, list@),
{
    map.upsert_sync(topic.to_vec(), list);
}

/// Removes a topic with its receivers, by `scc::HashMap::remove_sync`.
#[verifier::external_body]
fn registrations_remove(map: &mut RegistrationMap, topic: &[u8]) -> (list: Option<Vec<Receiver>>)
    ensures
        list is Some <==> registrations(*old(map)).contains_key(topic@),
        list matches Some(l) ==> l@ == registrations(*old(map))[topic@],
        registrations(*final(map)) == registrations(*old(map)).remove(topic@),
{
    map.remove_sync(&topic.to_vec()).map(|(_, list)| list)
}

/// `list` names every topic of `map`, and nothing else.
pub open spec fn lists_topics(list: Seq<Vec<u8>>, map: Map<Seq<u8>, Seq<Receiver>>) -> bool {
    &&& forall|i: int| 0 <= i < list.len() ==> map.contains_key((#[trigger] list[i])@)
    &&& forall|topic: Seq<u8>| #[trigger]
        map.contains_key(topic) ==> exists|i: int| 0 <= i < list.len() && (#[trigger] list[i])@ == topic
}

/// Copies all topics in some order, by `scc::HashMap::iter_sync`.
#[verifier::external_body]
fn registrations_topics(map: &RegistrationMap) -> (list: Vec<Vec<u8>>)
    ensures
        lists_topics(list@, registrations(*map)),
{
    let mut list = Vec::new();
    map.iter_sync(|topic, _| {
        list.push(topic.clone());
        true
    });
    list
}

/// How an attempt to send ended.
#[derive(Clone, Copy, Debug, PartialEq, Eq, Structural)]
pub enum Delivery {
    /// The receiver has the value.
    Sent,
    /// The receiver is too slow: its queue is full.
    Full,
    /// The receiver is gone.
    Closed,
}

/// Receivers that are left once those in `gone` have left.
pub open spec fn remaining(list: Seq<Receiver>, gone: Seq<Receiver>) -> Seq<Receiver>
    decreases list.len(),
{
    if list.len() == 0 {
        Seq::empty()
    } else {
        let rest = remaining(list.drop_last(), gone);
        if gone.contains(list.last()) {
            rest
        } else {
            rest.push(list.last())
        }
    }
}

/// Receivers that were reached.
pub open spec fn reached(list: Seq<Receiver>, deliveries: Seq<Delivery>) -> Seq<Receiver>
    decreases list.len(),
{
    if list.len() == 0 {
        Seq::empty()
    } else {
        let rest = reached(list.drop_last(), deliveries);
        if deliveries[list.len() - 1] is Sent {
            rest.push(list.last())
        } else {
            rest
        }
    }
}

/// Number of receivers among the first `n` that were too slow.
pub open spec fn too_slow(deliveries: Seq<Delivery>, n: nat) -> nat
    decreases n,
{
    if n == 0 {
        0
    } else {
        too_slow(deliveries, (n - 1) as nat) + if deliveries[n - 1] is Full {
            1nat
        } else {
            0nat
        }
    }
}

/// Topics and receivers after the receivers of one topic became `list`. A topic without
/// receivers is dropped.
pub open spec fn settled(
    map: Map<Seq<u8>, Seq<Receiver>>,
    topic: Seq<u8>,
    list: Seq<Receiver>,
) -> Map<Seq<u8>, Seq<Receiver>> {
    if list.len() == 0 {
        map.remove(topic)
    } else {
        map.insert(topic, list)
    }
}

/// Topics and receivers after those in `gone` have left.
pub open spec fn cleaned(map: Map<Seq<u8>, Seq<Receiver>>, gone: Seq<Receiver>) -> Map<
    Seq<u8>,
    Seq<Receiver>,
> {
    Map::new(
        |topic: Seq<u8>| map.contains_key(topic) && remaining(map[topic], gone).len() > 0,
        |topic: Seq<u8>| remaining(map[topic], gone),
    )
}

/// Receivers of one topic.
pub open spec fn receivers_of(map: Map<Seq<u8>, Seq<Receiver>>, topic: Seq<u8>) -> Seq<Receiver> {
    if map.contains_key(topic) {
        map[topic]
    } else {
        Seq::empty()
    }
}

/// Receivers by topic, with the number of topics, so that nothing needs to be looked up while
/// nobody listens.
pub struct Subscribers {
    /// Receivers by topic.
    pub entries: RegistrationMap,
    /// Number of topics.
    pub keys: u64,
}

fn listed(list: &Vec<Receiver>, receiver: Receiver) -> (found: bool)
    ensures
        found == list@.contains(receiver),
{
    let mut i: usize = 0;
    while i < list.len()
        invariant
            i <= list@.len(),
            forall|k: int| 0 <= k < i ==> list@[k] != receiver,
        decreases list@.len() - i,
    {
        if list[i] == receiver {
            return true;
        }
        i += 1;
    }
    false
}

impl View for Subscribers {
    type V = Map<Seq<u8>, Seq<Receiver>>;

    open spec fn view(&self) -> Map<Seq<u8>, Seq<Receiver>> {
        registrations(self.entries)
    }
}

impl Subscribers {
    /// The topics are counted, and each one has a receiver.
    pub open spec fn wf(self) -> bool {
        &&& self@.dom().finite()
        &&& self.keys == self@.dom().len()
        &&& forall|topic: Seq<u8>| #[trigger]
            self@.contains_key(topic) ==> self@[topic].len() > 0
    }

    /// Nobody listens.
    pub fn new() -> (subscribers: Subscribers)
        ensures
            subscribers.wf(),
            subscribers@ == Map::<Seq<u8>, Seq<Receiver>>::empty(),
    {
        let subscribers = Subscribers { entries: registrations_new(), keys: 0 };
        assert(subscribers@ =~= Map::<Seq<u8>, Seq<Receiver>>::empty());
        subscribers
    }

    /// Whether nobody listens.
    pub fn is_empty(&self) -> (empty: bool)
        requires
            self.wf(),
        ensures
            empty <==> self@ == Map::<Seq<u8>, Seq<Receiver>>::empty(),
    {
        proof {
            if self.keys == 0 {
                assert(self@.dom() =~= Set::empty());
                assert(self@ =~= Map::<Seq<u8>, Seq<Receiver>>::empty());
            }
        }
        self.keys == 0
    }

    /// Adds a receiver to a topic.
    pub fn insert(&mut self, topic: &[u8], receiver: Receiver)
        requires
            old(self).wf(),
            old(self).keys < u64::MAX,
        ensures
            final(self).wf(),
            final(self)@ == old(self)@.insert(
                topic@,
                receivers_of(old(self)@, topic@).push(receiver),
            ),
    {
        let mut list = match registrations_read(&self.entries, topic) {
            Some(list) => list,
            None => {
                self.keys = self.keys + 1;
                Vec::new()
            },
        };
        list.push(receiver);
        registrations_upsert(&mut self.entries, topic, list);
    }

    /// Receivers of a topic, in the order in which they came.
    pub fn receivers(&self, topic: &[u8]) -> (list: Vec<Receiver>)
        requires
            self.wf(),
        ensures
            list@ == receivers_of(self@, topic@),
    {
        if self.is_empty() {
            return Vec::new();
        }
        match registrations_read(&self.entries, topic) {
            Some(list) => list,
            None => Vec::new(),
        }
    }

    /// Gives a topic its receivers, and drops it if there are none.
    fn settle(&mut self, topic: &[u8], list: Vec<Receiver>) -> (present: bool)
        requires
            old(self).wf(),
            old(self)@.contains_key(topic@),
        ensures
            final(self).wf(),
            final(self)@ == settled(old(self)@, topic@, list@),
            present == (list@.len() > 0),
            final(self).keys <= old(self).keys,
    {
        if list.len() == 0 {
            let _ = registrations_remove(&mut self.entries, topic);
            assert(old(self)@.dom().len() > 0);
            self.keys = self.keys - 1;
            assert(self@.dom() =~= old(self)@.dom().remove(topic@));
            return false;
        }
        registrations_upsert(&mut self.entries, topic, list);
        assert(self@.dom() =~= old(self)@.dom());
        true
    }

    /// Lets receivers of a topic go, and says whether the topic still has one.
    pub fn retain(&mut self, topic: &[u8], gone: &Vec<Receiver>) -> (present: bool)
        requires
            old(self).wf(),
        ensures
            final(self).wf(),
            final(self).keys <= old(self).keys,
            present == (remaining(receivers_of(old(self)@, topic@), gone@).len() > 0),
            final(self)@ == settled(
                old(self)@,
                topic@,
                remaining(receivers_of(old(self)@, topic@), gone@),
            ),
    {
        let list = self.receivers(topic);
        if list.len() == 0 {
            assert(!self@.contains_key(topic@));
            assert(self@.remove(topic@) =~= self@);
            return false;
        }
        let mut kept: Vec<Receiver> = Vec::new();
        let mut i: usize = 0;
        while i < list.len()
            invariant
                i <= list@.len(),
                kept@ == remaining(list@.take(i as int), gone@),
            decreases list@.len() - i,
        {
            let ghost next = list@.take(i + 1);
            assert(next.drop_last() =~= list@.take(i as int));
            if !listed(gone, list[i]) {
                kept.push(list[i]);
            }
            i += 1;
        }
        assert(list@.take(i as int) =~= list@);
        self.settle(topic, kept)
    }

    /// Lets the receivers of a topic go that a value did not reach.
    pub fn deliver(&mut self, topic: &[u8], deliveries: &Vec<Delivery>) -> (present: bool)
        requires
            old(self).wf(),
            deliveries@.len() == receivers_of(old(self)@, topic@).len(),
        ensures
            final(self).wf(),
            final(self).keys <= old(self).keys,
            present == (reached(receivers_of(old(self)@, topic@), deliveries@).len() > 0),
            final(self)@ == settled(
                old(self)@,
                topic@,
                reached(receivers_of(old(self)@, topic@), deliveries@),
            ),
    {
        let list = self.receivers(topic);
        if list.len() == 0 {
            assert(!self@.contains_key(topic@));
            assert(self@.remove(topic@) =~= self@);
            return false;
        }
        let mut kept: Vec<Receiver> = Vec::new();
        let mut i: usize = 0;
        while i < list.len()
            invariant
                i <= list@.len(),
                list@.len() == deliveries@.len(),
                kept@ == reached(list@.take(i as int), deliveries@),
            decreases list@.len() - i,
        {
            let ghost next = list@.take(i + 1);
            assert(next.drop_last() =~= list@.take(i as int));
            match deliveries[i] {
                Delivery::Sent => {
                    kept.push(list[i]);
                },
                Delivery::Full | Delivery::Closed => {},
            }
            i += 1;
        }
        assert(list@.take(i as int) =~= list@);
        self.settle(topic, kept)
    }

    /// Lets receivers of all topics go.
    pub fn cleanup(&mut self, gone: &Vec<Receiver>)
        requires
            old(self).wf(),
        ensures
            final(self).wf(),
            final(self).keys <= old(self).keys,
            final(self)@ == cleaned(old(self)@, gone@),
    {
        let ghost start = self@;
        if self.is_empty() {
            assert(cleaned(start, gone@) =~= start);
            return ;
        }
        let topics = registrations_topics(&self.entries);
        let ghost keys = self.keys;
        let mut i: usize = 0;
        while i < topics.len()
            invariant
                i <= topics@.len(),
                self.wf(),
                self.keys <= keys,
                lists_topics(topics@, start),
                forall|topic: Seq<u8>| #[trigger]
                    self@.contains_key(topic) ==> start.contains_key(topic) && (self@[topic]
                        == start[topic] || self@[topic] == remaining(start[topic], gone@)),
                forall|topic: Seq<u8>| #[trigger]
                    start.contains_key(topic) && !self@.contains_key(topic) ==> remaining(
                        start[topic],
                        gone@,
                    ).len() == 0,
                forall|k: int|
                    0 <= k < i && self@.contains_key((#[trigger] topics@[k])@)
                        ==> self@[topics@[k]@] == remaining(start[topics@[k]@], gone@),
            decreases topics@.len() - i,
        {
            let ghost before = self@;
            let ghost topic = topics@[i as int]@;
            let _ = self.retain(topics[i].as_slice(), gone);
            proof {
                assert(start.contains_key(topic));
                remaining_again(start[topic], gone@);
                if !before.contains_key(topic) {
                    assert(remaining(Seq::<Receiver>::empty(), gone@).len() == 0);
                    assert(self@ =~= before);
                }
            }
            i += 1;
        }
        proof {
            assert forall|topic: Seq<u8>| #[trigger] self@.contains_key(topic) <==> cleaned(
                start,
                gone@,
            ).contains_key(topic) by {
                if start.contains_key(topic) {
                    let k = choose|k: int|
                        0 <= k < topics@.len() && (#[trigger] topics@[k])@ == topic;
                    assert(topics@[k]@ == topic);
                }
            }
            assert forall|topic: Seq<u8>| #[trigger] self@.contains_key(topic) implies self@[topic]
                == cleaned(start, gone@)[topic] by {
                let k = choose|k: int| 0 <= k < topics@.len() && (#[trigger] topics@[k])@ == topic;
                assert(topics@[k]@ == topic);
            }
            assert(self@ =~= cleaned(start, gone@));
        }
    }

    /// Takes all receivers of a topic.
    pub fn remove(&mut self, topic: &[u8]) -> (list: Option<Vec<Receiver>>)
        requires
            old(self).wf(),
        ensures
            final(self).wf(),
            final(self).keys <= old(self).keys,
            final(self)@ == old(self)@.remove(topic@),
            match list {
                Some(l) => old(self)@.contains_key(topic@) && l@ == old(self)@[topic@],
                None => !old(self)@.contains_key(topic@),
            },
    {
        if self.is_empty() {
            assert(self@.remove(topic@) =~= self@);
            return None;
        }
        let list = registrations_remove(&mut self.entries, topic);
        if list.is_some() {
            assert(old(self)@.dom().len() > 0);
            self.keys = self.keys - 1;
        }
        assert(self@.dom() =~= old(self)@.dom().remove(topic@));
        list
    }
}

/// Receivers that are left are left again.
pub proof fn remaining_again(list: Seq<Receiver>, gone: Seq<Receiver>)
    ensures
        remaining(remaining(list, gone), gone) == remaining(list, gone),
    decreases list.len(),
{
    if list.len() > 0 {
        remaining_again(list.drop_last(), gone);
        let rest = remaining(list.drop_last(), gone);
        if !gone.contains(list.last()) {
            assert(rest.push(list.last()).drop_last() =~= rest);
        }
    }
}

/// Stream of notifications.
#[derive(Clone, Copy, Debug, PartialEq, Eq, Structural)]
pub enum Subscription {
    /// Updates of one account.
    Accounts,
    /// Updates of the accounts of one program.
    Programs,
    /// Logs that mention an account.
    Logs,
    /// Blocks.
    Blocks,
    /// Processed transactions.
    Transactions,
    /// Snapshot archives.
    Snapshots,
    /// Messages for services.
    Services,
    /// Accounts that had to leave the cache.
    Evictions,
}

impl Subscription {
    /// Name of a stream.
    pub open spec fn text(self) -> Seq<char> {
        match self {
            Subscription::Accounts => "accounts"@,
            Subscription::Programs => "programs"@,
            Subscription::Logs => "logs"@,
            Subscription::Blocks => "blocks"@,
            Subscription::Transactions => "transactions"@,
            Subscription::Snapshots => "snapshots"@,
            Subscription::Services => "services"@,
            Subscription::Evictions => "evictions"@,
        }
    }

    /// Name of a stream.
    pub fn label(self) -> (label: &'static str)
        ensures
            label@ == self.text(),
    {
        match self {
            Subscription::Accounts => "accounts",
            Subscription::Programs => "programs",
            Subscription::Logs => "logs",
            Subscription::Blocks => "blocks",
            Subscription::Transactions => "transactions",
            Subscription::Snapshots => "snapshots",
            Subscription::Services => "services",
            Subscription::Evictions => "evictions",
        }
    }
}

/// Stream that has one receiver for as long as the process lives.
pub struct Unicast {
    /// Whether the receiver was handed out.
    pub registered: bool,
    /// Length of its queue.
    pub capacity: usize,
    /// The stream.
    pub subscription: Subscription,
}

impl Unicast {
    /// A stream without a receiver.
    pub fn new(capacity: usize, subscription: Subscription) -> (stream: Unicast)
        ensures
            stream == (Unicast { registered: false, capacity, subscription }),
    {
        Unicast { registered: false, capacity, subscription }
    }

    /// Hands the receiver out, once, and says how long its queue is.
    pub fn subscribe(&mut self) -> (result: Result<usize, KeeperError>)
        ensures
            *final(self) == (Unicast { registered: true, ..*old(self) }),
            match result {
                Ok(capacity) => !old(self).registered && capacity == old(self).capacity,
                Err(KeeperError::SubscriptionRegistered(label)) => old(self).registered && label@
                    == old(self).subscription.text(),
                Err(_) => false,
            },
    {
        if self.registered {
            return Err(KeeperError::SubscriptionRegistered(self.subscription.label()));
        }
        self.registered = true;
        Ok(self.capacity)
    }

    /// Whether a value has to be prepared and sent, given whether the receiver is gone.
    pub fn sends(&self, closed: bool) -> (yes: bool)
        ensures
            yes == (self.registered && !closed),
    {
        self.registered && !closed
    }
}

/// Stream with any number of receivers by topic, each with a queue of its own.
pub struct Multicast {
    /// The receivers.
    pub senders: Subscribers,
    /// Length of each queue.
    pub capacity: usize,
    /// The stream.
    pub subscription: Subscription,
}

impl Multicast {
    /// A stream without receivers.
    pub fn new(capacity: usize, subscription: Subscription) -> (stream: Multicast)
        ensures
            stream.senders.wf(),
            stream.senders@ == Map::<Seq<u8>, Seq<Receiver>>::empty(),
            stream.capacity == capacity,
            stream.subscription == subscription,
    {
        Multicast { senders: Subscribers::new(), capacity, subscription }
    }

    /// Everything but the receivers is as before.
    pub open spec fn same_stream(self, other: Multicast) -> bool {
        self.capacity == other.capacity && self.subscription == other.subscription
    }

    /// A receiver was added to a topic.
    pub open spec fn registers(self, topic: Seq<u8>, receiver: Receiver, after: Multicast) -> bool {
        &&& after.same_stream(self)
        &&& after.senders@ == self.senders@.insert(
            topic,
            receivers_of(self.senders@, topic).push(receiver),
        )
    }

    /// Adds a receiver to a topic, and says how long its queue is.
    pub fn subscribe(&mut self, topic: &[u8], receiver: Receiver) -> (capacity: usize)
        requires
            old(self).senders.wf(),
            old(self).senders.keys < u64::MAX,
        ensures
            final(self).senders.wf(),
            final(self).same_stream(*old(self)),
            capacity == old(self).capacity,
            final(self).senders@ == old(self).senders@.insert(
                topic@,
                receivers_of(old(self).senders@, topic@).push(receiver),
            ),
    {
        self.senders.insert(topic, receiver);
        self.capacity
    }

    /// Whether a topic has a receiver, once those in `closed` have left.
    pub fn contains(&mut self, topic: &[u8], closed: &Vec<Receiver>) -> (present: bool)
        requires
            old(self).senders.wf(),
        ensures
            final(self).senders.wf(),
            final(self).same_stream(*old(self)),
            present == (remaining(receivers_of(old(self).senders@, topic@), closed@).len() > 0),
            final(self).senders@ == settled(
                old(self).senders@,
                topic@,
                remaining(receivers_of(old(self).senders@, topic@), closed@),
            ),
    {
        self.senders.retain(topic, closed)
    }

    /// Those to whom a value has to be sent, in order.
    pub fn receivers(&self, topic: &[u8]) -> (list: Vec<Receiver>)
        requires
            self.senders.wf(),
        ensures
            list@ == receivers_of(self.senders@, topic@),
    {
        self.senders.receivers(topic)
    }

    /// Lets the receivers go that a value did not reach, and counts those that were too slow.
    pub fn send(&mut self, topic: &[u8], deliveries: &Vec<Delivery>) -> (slow: usize)
        requires
            old(self).senders.wf(),
            deliveries@.len() == receivers_of(old(self).senders@, topic@).len(),
        ensures
            final(self).senders.wf(),
            final(self).same_stream(*old(self)),
            slow == too_slow(deliveries@, deliveries@.len()),
            final(self).senders@ == settled(
                old(self).senders@,
                topic@,
                reached(receivers_of(old(self).senders@, topic@), deliveries@),
            ),
    {
        let _ = self.senders.deliver(topic, deliveries);
        let mut slow: usize = 0;
        let mut i: usize = 0;
        while i < deliveries.len()
            invariant
                i <= deliveries@.len(),
                slow <= i,
                slow == too_slow(deliveries@, i as nat),
            decreases deliveries@.len() - i,
        {
            if deliveries[i] == Delivery::Full {
                slow += 1;
            }
            i += 1;
        }
        slow
    }

    /// Lets receivers of all topics go.
    pub fn cleanup(&mut self, closed: &Vec<Receiver>)
        requires
            old(self).senders.wf(),
        ensures
            final(self).senders.wf(),
            final(self).same_stream(*old(self)),
            final(self).senders@ == cleaned(old(self).senders@, closed@),
    {
        self.senders.cleanup(closed);
    }
}

/// Those who wait for the outcome of a transaction, by signature.
pub struct Signatures {
    /// The receivers.
    pub senders: Subscribers,
}

impl Signatures {
    /// Nobody waits.
    pub fn new() -> (signatures: Signatures)
        ensures
            signatures.senders.wf(),
            signatures.senders@ == Map::<Seq<u8>, Seq<Receiver>>::empty(),
    {
        Signatures { senders: Subscribers::new() }
    }

    /// Adds a receiver.
    pub fn subscribe(&mut self, signature: &Signature, receiver: Receiver)
        requires
            old(self).senders.wf(),
            old(self).senders.keys < u64::MAX,
        ensures
            final(self).senders.wf(),
            final(self).senders@ == old(self).senders@.insert(
                signature@,
                receivers_of(old(self).senders@, signature@).push(receiver),
            ),
    {
        self.senders.insert(signature.as_slice(), receiver);
    }

    /// Lets receivers go that nobody listens to any more.
    pub fn cleanup(&mut self, closed: &Vec<Receiver>)
        requires
            old(self).senders.wf(),
        ensures
            final(self).senders.wf(),
            final(self).senders@ == cleaned(old(self).senders@, closed@),
    {
        self.senders.cleanup(closed);
    }

    /// Takes all who wait for a signature. Each is told the outcome once.
    pub fn send(&mut self, signature: &Signature) -> (list: Vec<Receiver>)
        requires
            old(self).senders.wf(),
        ensures
            final(self).senders.wf(),
            final(self).senders@ == old(self).senders@.remove(signature@),
            list@ == receivers_of(old(self).senders@, signature@),
    {
        match self.senders.remove(signature.as_slice()) {
            Some(list) => list,
            None => Vec::new(),
        }
    }
}

/// Logs of one transaction.
#[derive(Debug)]
pub struct TransactionLogs {
    /// Its first signature.
    pub signature: Signature,
    /// Its outcome.
    pub result: TransactionResult,
    /// The lines.
    pub logs: Arc<Vec<String>>,
}

/// All streams.
pub struct Subscriptions {
    /// Updates by account.
    pub accounts: Multicast,
    /// Updates by owning program.
    pub programs: Multicast,
    /// Outcomes by signature.
    pub signatures: Signatures,
    /// Logs by mentioned account.
    pub logs: Multicast,
    /// Blocks.
    pub blocks: Multicast,
    /// Processed transactions.
    pub transactions: Unicast,
    /// Snapshot archives.
    pub snapshots: Multicast,
    /// Messages for services.
    pub services: Unicast,
    /// Accounts that had to leave the cache.
    pub evictions: Unicast,
}

impl Subscriptions {
    /// Well-formed streams.
    pub open spec fn wf(self) -> bool {
        &&& self.accounts.senders.wf()
        &&& self.programs.senders.wf()
        &&& self.signatures.senders.wf()
        &&& self.logs.senders.wf()
        &&& self.blocks.senders.wf()
        &&& self.snapshots.senders.wf()
    }

    /// Nobody listens, anywhere.
    pub open spec fn silent(self) -> bool {
        let none = Map::<Seq<u8>, Seq<Receiver>>::empty();
        &&& self.accounts.senders@ == none
        &&& self.programs.senders@ == none
        &&& self.signatures.senders@ == none
        &&& self.logs.senders@ == none
        &&& self.blocks.senders@ == none
        &&& self.snapshots.senders@ == none
        &&& !self.transactions.registered
        &&& !self.services.registered
        &&& !self.evictions.registered
    }

    /// Streams without receivers.
    pub fn new() -> (streams: Subscriptions)
        ensures
            streams.wf(),
            streams.silent(),
            streams.accounts.capacity == 8,
            streams.programs.capacity == 16,
            streams.logs.capacity == 8,
            streams.blocks.capacity == 32,
            streams.transactions.capacity == 1024,
            streams.snapshots.capacity == 4,
            streams.services.capacity == 64,
            streams.evictions.capacity == 32,
            streams.accounts.subscription == Subscription::Accounts,
            streams.programs.subscription == Subscription::Programs,
            streams.logs.subscription == Subscription::Logs,
            streams.blocks.subscription == Subscription::Blocks,
            streams.transactions.subscription == Subscription::Transactions,
            streams.snapshots.subscription == Subscription::Snapshots,
            streams.services.subscription == Subscription::Services,
            streams.evictions.subscription == Subscription::Evictions,
    {
        Subscriptions {
            accounts: Multicast::new(8, Subscription::Accounts),
            programs: Multicast::new(16, Subscription::Programs),
            signatures: Signatures::new(),
            logs: Multicast::new(8, Subscription::Logs),
            blocks: Multicast::new(32, Subscription::Blocks),
            transactions: Unicast::new(1024, Subscription::Transactions),
            snapshots: Multicast::new(4, Subscription::Snapshots),
            services: Unicast::new(64, Subscription::Services),
            evictions: Unicast::new(32, Subscription::Evictions),
        }
    }

    /// Lets receivers go that nobody listens to any more. Streams with one receiver keep it.
    pub fn cleanup(&mut self, closed: &Vec<Receiver>)
        requires
            old(self).wf(),
        ensures
            final(self).wf(),
            final(self).accounts.senders@ == cleaned(old(self).accounts.senders@, closed@),
            final(self).programs.senders@ == cleaned(old(self).programs.senders@, closed@),
            final(self).signatures.senders@ == cleaned(old(self).signatures.senders@, closed@),
            final(self).logs.senders@ == cleaned(old(self).logs.senders@, closed@),
            final(self).blocks.senders@ == cleaned(old(self).blocks.senders@, closed@),
            final(self).snapshots.senders@ == cleaned(old(self).snapshots.senders@, closed@),
            final(self).transactions == old(self).transactions,
            final(self).services == old(self).services,
            final(self).evictions == old(self).evictions,
    {
        self.accounts.cleanup(closed);
        self.programs.cleanup(closed);
        self.signatures.cleanup(closed);
        self.logs.cleanup(closed);
        self.blocks.cleanup(closed);
        self.snapshots.cleanup(closed);
    }
}

/// A receiver stays registered for as long as values reach it, and a registration is seen by
/// the next value for its topic.
pub proof fn registration_is_seen(
    map: Map<Seq<u8>, Seq<Receiver>>,
    topic: Seq<u8>,
    receiver: Receiver,
    deliveries: Seq<Delivery>,
)
    requires
        deliveries.len() == receivers_of(map, topic).len() + 1,
        deliveries.last() is Sent,
    ensures
        ({
            let registered = map.insert(topic, receivers_of(map, topic).push(receiver));
            let list = receivers_of(registered, topic);
            &&& list.last() == receiver
            &&& receivers_of(settled(registered, topic, reached(list, deliveries)), topic).contains(
                receiver,
            )
        }),
{
    let registered = map.insert(topic, receivers_of(map, topic).push(receiver));
    let list = receivers_of(registered, topic);
    let left = reached(list, deliveries);
    assert(left.last() == receiver);
}

/// What happens on one topic leaves the receivers of all others alone.
pub proof fn topics_are_apart(
    map: Map<Seq<u8>, Seq<Receiver>>,
    topic: Seq<u8>,
    other: Seq<u8>,
    list: Seq<Receiver>,
)
    requires
        topic != other,
    ensures
        receivers_of(settled(map, topic, list), other) == receivers_of(map, other),
{
}

/// A receiver that was too slow or is gone receives nothing more.
pub proof fn lost_receivers_leave(
    list: Seq<Receiver>,
    deliveries: Seq<Delivery>,
    receiver: Receiver,
)
    requires
        deliveries.len() == list.len(),
        forall|i: int| 0 <= i < list.len() && list[i] == receiver ==> !(deliveries[i] is Sent),
    ensures
        !reached(list, deliveries).contains(receiver),
{
    lost_among_first(list, deliveries, receiver);
}

proof fn lost_among_first(list: Seq<Receiver>, deliveries: Seq<Delivery>, receiver: Receiver)
    requires
        list.len() <= deliveries.len(),
        forall|i: int| 0 <= i < list.len() && list[i] == receiver ==> !(deliveries[i] is Sent),
    ensures
        !reached(list, deliveries).contains(receiver),
    decreases list.len(),
{
    if list.len() > 0 {
        let rest = reached(list.drop_last(), deliveries);
        lost_among_first(list.drop_last(), deliveries, receiver);
        assert forall|i: int| 0 <= i < reached(list, deliveries).len() implies reached(
            list,
            deliveries,
        )[i] != receiver by {
            if i < rest.len() {
                assert(!rest.contains(receiver));
                assert(rest[i] != receiver);
            }
        }
    }
}

/// Every receiver that a value reached stays, and in its order; a receiver stays only if one of
/// its attempts reached it.
pub proof fn reached_receivers_stay(list: Seq<Receiver>, deliveries: Seq<Delivery>, i: int)
    requires
        list.len() <= deliveries.len(),
        0 <= i < list.len(),
    ensures
        deliveries[i] is Sent ==> reached(list, deliveries).contains(list[i]),
        reached(list, deliveries).len() <= list.len(),
        (forall|k: int| 0 <= k < list.len() ==> (#[trigger] deliveries[k]) is Sent) ==> reached(
            list,
            deliveries,
        ) == list,
    decreases list.len(),
{
    let less = list.drop_last();
    let rest = reached(less, deliveries);
    let all = reached(list, deliveries);
    if less.len() > 0 {
        reached_receivers_stay(
            less,
            deliveries,
            if i < less.len() {
                i
            } else {
                0
            },
        );
    } else {
        assert(rest =~= less);
    }
    if i == list.len() - 1 {
        if deliveries[i] is Sent {
            assert(all[all.len() - 1] == list[i]);
        }
    } else if deliveries[i] is Sent {
        assert(less[i] == list[i]);
        let k = choose|k: int| 0 <= k < rest.len() && rest[k] == list[i];
        assert(all[k] == list[i]);
    }
    if forall|k: int| 0 <= k < list.len() ==> (#[trigger] deliveries[k]) is Sent {
        assert(deliveries[list.len() - 1] is Sent);
        assert(all =~= list);
    }
}

/// Every receiver whose queue was full is counted, once, and no other one.
pub proof fn slow_receivers_are_counted(deliveries: Seq<Delivery>, n: nat)
    requires
        n <= deliveries.len(),
    ensures
        too_slow(deliveries, n) == deliveries.take(n as int).filter(
            |delivery: Delivery| delivery is Full,
        ).len(),
    decreases n,
{
    reveal(Seq::filter);
    if n > 0 {
        slow_receivers_are_counted(deliveries, (n - 1) as nat);
        assert(deliveries.take(n as int).drop_last() =~= deliveries.take(n - 1));
    }
}

/// Someone who registers for a topic is among its receivers, behind those who were there, and
/// changes nothing about other topics.
pub proof fn registered_receivers_are_last(
    before: Multicast,
    topic: Seq<u8>,
    receiver: Receiver,
    after: Multicast,
    other: Seq<u8>,
)
    requires
        before.registers(topic, receiver, after),
    ensures
        after.senders@.contains_key(topic),
        after.senders@[topic].last() == receiver,
        before.senders@.contains_key(topic) ==> after.senders@[topic].drop_last()
            == before.senders@[topic],
        !before.senders@.contains_key(topic) ==> after.senders@[topic].len() == 1,
        other != topic ==> after.senders@.contains_key(other) == before.senders@.contains_key(other),
        other != topic && before.senders@.contains_key(other) ==> after.senders@[other]
            == before.senders@[other],
        after.capacity == before.capacity,
        after.subscription == before.subscription,
{
    if before.senders@.contains_key(topic) {
        assert(after.senders@[topic].drop_last() =~= before.senders@[topic]);
    }
}

/// At the start nobody follows anything, whatever the topic.
pub proof fn nobody_listens_at_first(subscriptions: Subscriptions, topic: Seq<u8>)
    requires
        subscriptions.silent(),
    ensures
        receivers_of(subscriptions.accounts.senders@, topic).len() == 0,
        receivers_of(subscriptions.programs.senders@, topic).len() == 0,
        receivers_of(subscriptions.signatures.senders@, topic).len() == 0,
        receivers_of(subscriptions.logs.senders@, topic).len() == 0,
        receivers_of(subscriptions.blocks.senders@, topic).len() == 0,
        receivers_of(subscriptions.snapshots.senders@, topic).len() == 0,
        !subscriptions.transactions.registered,
        !subscriptions.services.registered,
        !subscriptions.evictions.registered,
{
}

} // verus!
