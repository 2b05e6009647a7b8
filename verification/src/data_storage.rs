use vstd::prelude::*;

use crate::communication_msgs::ImuMsg;
use crate::communication_msgs::LocalizationMsg;

verus! {

/// Single-slot latest-value cache: `get` returns the most recent value
/// written by `set`, or nothing if no value was ever written.
#[derive(Clone)]
pub struct Storage<T> {
    pub slot: Option<T>,
}

impl<T> View for Storage<T> {
    type V = Option<T>;

    open spec fn view(&self) -> Option<T> {
        self.slot
    }
}

impl<T> Storage<T> {
    /// A freshly created storage holds no value yet.
    pub fn new() -> (s: Self)
        ensures
            s@ is None,
    {
        Storage { slot: None }
    }

    /// Non-blocking read of the latest value; the result is fully determined
    /// by the current contents, so two reads without an intervening `set`
    /// return the same value.
    pub fn get(&self) -> (r: Option<&T>)
        ensures
            match r {
                Some(v) => self@ == Some(*v),
                None => self@ is None,
            },
    {
        self.slot.as_ref()
    }

    /// Unconditionally overwrite the slot with the new value.
    pub fn set(&mut self, new: T)
        ensures
            final(self)@ == Some(new),
    {
        self.slot = Some(new);
    }
}

/// The logical message kinds that the hub can route.
#[derive(Debug, Clone, Copy, PartialEq, Eq, Hash, Structural)]
pub enum InputMsgType {
    Localization,
    Imu,
}

/// The transports that envelopes may arrive from.
#[allow(non_camel_case_types)]
#[derive(Debug, Clone, Copy, PartialEq, Eq, Hash, Structural)]
pub enum ProtocolType {
    MQTT,
    gRPC,
    ROS,
    TCP,
}

/// An envelope: a protocol- and type-tagged raw payload, as received from a
/// transport and prior to decoding.
#[derive(Debug)]
pub struct MsgWithMeta {
    pub protocol: ProtocolType,
    pub msg_type: InputMsgType,
    pub payload: Vec<u8>,
}

/// Why an adapter rejected a payload.
#[derive(Debug, Clone, Copy, PartialEq, Eq, Structural)]
pub enum DecodeError {
    /// The payload does not match the expected shape.
    Malformed,
    /// The payload is well formed but a value does not fit its field.
    OutOfRange,
}

/// What became of one envelope taken from the queue.
#[derive(Debug, Clone, Copy, PartialEq, Eq, Structural)]
pub enum DispatchReport {
    /// A publisher adapted the envelope and notified its subscribers.
    Delivered,
    /// The routed publisher's adapter rejected the payload; the envelope was
    /// dropped.
    DecodeFailed(DecodeError),
    /// No publisher is registered for the envelope's message type; the
    /// envelope was dropped.
    NoPublisher(InputMsgType),
}

/// A pure, fallible decoder from an envelope to a localization message.
/// `adapt_spec` fixes the result of `adapt` on every envelope, so adapting
/// is deterministic and side-effect free.
pub trait AdaptToLocMsg: Sized {
    spec fn adapt_spec(&self, from: MsgWithMeta) -> Result<LocalizationMsg, DecodeError>;

    fn adapt(&self, from: MsgWithMeta) -> (r: Result<LocalizationMsg, DecodeError>)
        ensures
            r == self.adapt_spec(from),
    ;
}

/// A pure, fallible decoder from an envelope to an inertial measurement
/// message.
pub trait AdaptToImuMsg: Sized {
    spec fn adapt_spec(&self, from: MsgWithMeta) -> Result<ImuMsg, DecodeError>;

    fn adapt(&self, from: MsgWithMeta) -> (r: Result<ImuMsg, DecodeError>)
        ensures
            r == self.adapt_spec(from),
    ;
}

/// An adapter for envelopes arriving over MQTT: decodes the textual
/// `x;y;theta` payload into a localization message.
pub struct MqttAdapter {}

impl AdaptToLocMsg for MqttAdapter {
    open spec fn adapt_spec(&self, from: MsgWithMeta) -> Result<LocalizationMsg, DecodeError> {
        match crate::payload::decode_pose_spec(from.payload@) {
            Ok(p) => Ok(LocalizationMsg { pose: p }),
            Err(e) => Err(e),
        }
    }

    fn adapt(&self, from: MsgWithMeta) -> (r: Result<LocalizationMsg, DecodeError>) {
        match crate::payload::decode_pose(&from.payload) {
            Ok(p) => Ok(LocalizationMsg { pose: p }),
            Err(e) => Err(e),
        }
    }
}

/// Placeholder for an adapter reading the raw TCP framing.
pub struct TcpAdapter {}

/// An adapter that ignores the payload and always returns a fixed pose: the
/// stand-in used when wiring a hub whose decoding is not under test.
pub struct FixedPoseAdapter {
    pub pose: crate::geometry::Pose,
}

impl AdaptToLocMsg for FixedPoseAdapter {
    open spec fn adapt_spec(&self, from: MsgWithMeta) -> Result<LocalizationMsg, DecodeError> {
        Ok(LocalizationMsg { pose: self.pose })
    }

    fn adapt(&self, from: MsgWithMeta) -> (r: Result<LocalizationMsg, DecodeError>) {
        Ok(LocalizationMsg { pose: self.pose })
    }
}

/// A consumer of typed messages. `inbox` is the abstract sequence of all
/// messages the subscriber has received, oldest first; delivering one more
/// message appends it.
pub trait Subscribe<T>: Sized {
    spec fn wf(&self) -> bool;

    spec fn inbox(&self) -> Seq<T>;

    fn subscribe(&mut self, message: T)
        requires
            old(self).wf(),
        ensures
            final(self).wf(),
            final(self).inbox() == old(self).inbox().push(message),
    ;
}

/// A subscriber that caches the most recent message in a `Storage` slot.
pub struct StorageSubscriber<T> {
    pub storage: Storage<T>,
    pub history: Ghost<Seq<T>>,
}

impl<T> StorageSubscriber<T> {
    pub fn new() -> (s: Self)
        ensures
            s.wf(),
            s.inbox() == Seq::<T>::empty(),
    {
        StorageSubscriber { storage: Storage::new(), history: Ghost(Seq::empty()) }
    }

    /// The most recent message received, if any.
    pub fn latest(&self) -> (r: Option<&T>)
        requires
            self.wf(),
        ensures
            match r {
                Some(v) => self.inbox().len() > 0 && *v == self.inbox().last(),
                None => self.inbox().len() == 0,
            },
    {
        self.storage.get()
    }
}

impl<T> Subscribe<T> for StorageSubscriber<T> {
    /// The cached slot holds exactly the last received message.
    open spec fn wf(&self) -> bool {
        self.storage@ == if self.history@.len() == 0 {
            None::<T>
        } else {
            Some(self.history@.last())
        }
    }

    open spec fn inbox(&self) -> Seq<T> {
        self.history@
    }

    fn subscribe(&mut self, message: T) {
        self.history = Ghost(self.history@.push(message));
        self.storage.set(message);
    }
}

/// An insertion-ordered collection of subscribers with synchronous fan-out:
/// `notify` delivers each message to every registered subscriber, in
/// registration order. `notified` is the sequence of all messages fanned out
/// so far; in a well-formed registry every subscriber has received exactly
/// that sequence, which is why registration is restricted to the setup
/// phase, before the first notification.
pub struct SubscriberRegistry<T, S: Subscribe<T>> {
    pub subscribers: Vec<S>,
    pub notified_log: Ghost<Seq<T>>,
}

impl<T: Copy, S: Subscribe<T>> SubscriberRegistry<T, S> {
    pub open spec fn notified(&self) -> Seq<T> {
        self.notified_log@
    }

    pub open spec fn subs(&self) -> Seq<S> {
        self.subscribers@
    }

    pub open spec fn wf(&self) -> bool {
        forall|i: int|
            0 <= i < self.subs().len() ==> (#[trigger] self.subs()[i]).wf() && self.subs()[i].inbox()
                == self.notified()
    }

    pub fn new() -> (r: Self)
        ensures
            r.wf(),
            r.subs().len() == 0,
            r.notified() == Seq::<T>::empty(),
    {
        SubscriberRegistry { subscribers: Vec::new(), notified_log: Ghost(Seq::empty()) }
    }

    /// Append a subscriber. Registration happens only during setup: nothing
    /// may have been notified yet, and the new subscriber starts with an
    /// empty inbox.
    pub fn register(&mut self, subscriber: S)
        requires
            old(self).wf(),
            old(self).notified().len() == 0,
            subscriber.wf(),
            subscriber.inbox().len() == 0,
        ensures
            final(self).wf(),
            final(self).subs() == old(self).subs().push(subscriber),
            final(self).notified() == old(self).notified(),
    {
        self.subscribers.push(subscriber);
        proof {
            assert(subscriber.inbox() =~= self.notified());
            assert forall|i: int|
                0 <= i < self.subs().len() implies (#[trigger] self.subs()[i]).wf()
                && self.subs()[i].inbox() == self.notified() by {
                if i < old(self).subs().len() {
                    assert(self.subs()[i] == old(self).subs()[i]);
                    assert(old(self).subs()[i].wf());
                } else {
                    assert(self.subs()[i] == subscriber);
                }
            }
        }
    }

    /// Deliver `msg` to every registered subscriber, in registration order,
    /// returning only once each has processed it: every inbox grows by
    /// exactly this one message.
    pub fn notify(&mut self, msg: T)
        requires
            old(self).wf(),
        ensures
            final(self).wf(),
            final(self).notified() == old(self).notified().push(msg),
            final(self).subs().len() == old(self).subs().len(),
            forall|i: int|
                0 <= i < old(self).subs().len() ==> (#[trigger] final(self).subs()[i]).inbox()
                    == old(self).subs()[i].inbox().push(msg),
    {
        let n = self.subscribers.len();
        let mut i: usize = 0;
        while i < n
            invariant
                0 <= i <= n,
                n == self.subscribers@.len(),
                self.subscribers@.len() == old(self).subscribers@.len(),
                self.notified_log == old(self).notified_log,
                old(self).wf(),
                forall|j: int|
                    0 <= j < i ==> (#[trigger] self.subs()[j]).wf() && self.subs()[j].inbox()
                        == old(self).subs()[j].inbox().push(msg),
                forall|j: int| i <= j < n ==> self.subs()[j] == old(self).subs()[j],
            decreases n - i,
        {
            let ghost pre = self.subscribers@;
            let mut s = self.subscribers.remove(i);
            proof {
                assert(s == old(self).subs()[i as int]);
                assert(old(self).subs()[i as int].wf());
            }
            s.subscribe(msg);
            self.subscribers.insert(i, s);
            proof {
                assert(self.subscribers@ =~= pre.update(i as int, self.subscribers@[i as int]));
            }
            i = i + 1;
        }
        let ghost subs_after = self.subscribers@;
        proof {
            assert(i == n);
            assert forall|j: int|
                0 <= j < n implies (#[trigger] subs_after[j]).wf() && subs_after[j].inbox() == old(
                self,
            ).subs()[j].inbox().push(msg) by {
                assert((#[trigger] self.subs()[j]).wf() && self.subs()[j].inbox() == old(
                    self,
                ).subs()[j].inbox().push(msg));
                assert(subs_after[j] == self.subs()[j]);
            }
        }
        self.notified_log = Ghost(self.notified_log@.push(msg));
        proof {
            assert(self.subscribers@ == subs_after);
            assert forall|k: int|
                0 <= k < self.subs().len() implies (#[trigger] self.subs()[k]).wf()
                && self.subs()[k].inbox() == self.notified() by {
                assert(0 <= k < n);
                assert(self.subs()[k] == subs_after[k]);
                assert(old(self).subs()[k].inbox() == old(self).notified());
            }
        }
    }
}

/// The typed messages that `adapter` produces from a sequence of envelopes
/// it accepts.
pub open spec fn adapted_seq<A: AdaptToLocMsg>(adapter: A, q: Seq<MsgWithMeta>) -> Seq<
    LocalizationMsg,
> {
    q.map_values(|m: MsgWithMeta| adapter.adapt_spec(m)->Ok_0)
}

/// A publisher: the pairing of one adapter with one fan-out registry, bound
/// to a single logical message type. `log` is the sequence of envelopes the
/// publisher has accepted (adapted and delivered) so far; `outcome_spec`
/// fixes, per envelope, whether publishing it succeeds.
pub trait Publish<T>: Sized {
    spec fn wf(&self) -> bool;

    spec fn msg_type_spec(&self) -> InputMsgType;

    spec fn log(&self) -> Seq<T>;

    spec fn outcome_spec(&self, input: T) -> Result<(), DecodeError>;

    fn get_input_msg_type(&self) -> (t: InputMsgType)
        ensures
            t == self.msg_type_spec(),
    ;

    /// Adapt the envelope and fan the result out; on a decode failure,
    /// nothing is delivered and the error is surfaced to the caller.
    fn publish(&mut self, input: T) -> (r: Result<(), DecodeError>)
        requires
            old(self).wf(),
        ensures
            final(self).wf(),
            final(self).msg_type_spec() == old(self).msg_type_spec(),
            forall|m: T| #[trigger]
                final(self).outcome_spec(m) == old(self).outcome_spec(m),
            r == old(self).outcome_spec(input),
            r is Ok ==> final(self).log() == old(self).log().push(input),
            r is Err ==> final(self).log() == old(self).log(),
    ;
}

/// The publisher for localization messages: one adapter, one registry of
/// localization subscribers.
pub struct LocMsgPublisher<A: AdaptToLocMsg, S: Subscribe<LocalizationMsg>> {
    pub adapter: A,
    pub subscriber_registry: SubscriberRegistry<LocalizationMsg, S>,
    pub accepted: Ghost<Seq<MsgWithMeta>>,
}

impl<A: AdaptToLocMsg, S: Subscribe<LocalizationMsg>> LocMsgPublisher<A, S> {
    pub open spec fn subs(&self) -> Seq<S> {
        self.subscriber_registry.subs()
    }

    pub fn new(adapter: A) -> (p: Self)
        ensures
            p.wf(),
            p.adapter == adapter,
            p.log() == Seq::<MsgWithMeta>::empty(),
            p.subs().len() == 0,
    {
        let p = LocMsgPublisher {
            adapter,
            subscriber_registry: SubscriberRegistry::new(),
            accepted: Ghost(Seq::empty()),
        };
        proof {
            assert(p.subscriber_registry.notified() =~= adapted_seq(p.adapter, p.accepted@));
        }
        p
    }

    /// Append a subscriber; allowed only during setup, before the first
    /// envelope has been accepted.
    pub fn register(&mut self, subscriber: S)
        requires
            old(self).wf(),
            old(self).log().len() == 0,
            subscriber.wf(),
            subscriber.inbox().len() == 0,
        ensures
            final(self).wf(),
            final(self).adapter == old(self).adapter,
            final(self).log() == old(self).log(),
            final(self).subs() == old(self).subs().push(subscriber),
    {
        proof {
            assert(self.subscriber_registry.notified().len() == 0);
        }
        self.subscriber_registry.register(subscriber);
    }
}

impl<A: AdaptToLocMsg, S: Subscribe<LocalizationMsg>> Publish<MsgWithMeta> for LocMsgPublisher<
    A,
    S,
> {
    /// The registry is well formed, it has fanned out exactly the adapted
    /// versions of the accepted envelopes, and every accepted envelope did
    /// adapt successfully.
    open spec fn wf(&self) -> bool {
        &&& self.subscriber_registry.wf()
        &&& self.subscriber_registry.notified() == adapted_seq(self.adapter, self.accepted@)
        &&& forall|i: int|
            0 <= i < self.accepted@.len() ==> (#[trigger] self.adapter.adapt_spec(
                self.accepted@[i],
            )) is Ok
    }

    open spec fn msg_type_spec(&self) -> InputMsgType {
        InputMsgType::Localization
    }

    open spec fn log(&self) -> Seq<MsgWithMeta> {
        self.accepted@
    }

    open spec fn outcome_spec(&self, input: MsgWithMeta) -> Result<(), DecodeError> {
        match self.adapter.adapt_spec(input) {
            Ok(m) => Ok(()),
            Err(e) => Err(e),
        }
    }

    fn get_input_msg_type(&self) -> InputMsgType {
        InputMsgType::Localization
    }

    fn publish(&mut self, input: MsgWithMeta) -> (r: Result<(), DecodeError>) {
        let ghost inp = input;
        match self.adapter.adapt(input) {
            Ok(msg) => {
                self.subscriber_registry.notify(msg);
                let ghost reg_after = self.subscriber_registry;
                self.accepted = Ghost(self.accepted@.push(inp));
                proof {
                    assert(self.subscriber_registry == reg_after);
                    assert(self.subscriber_registry.notified() =~= adapted_seq(
                        self.adapter,
                        self.accepted@,
                    ));
                    assert(forall|i: int|
                        0 <= i < old(self).accepted@.len() ==> self.accepted@[i] == old(
                            self,
                        ).accepted@[i]);
                }
                Ok(())
            },
            Err(e) => Err(e),
        }
    }
}

/// Law: in a well-formed publisher, every registered subscriber has received
/// exactly the adapted versions of the accepted envelopes, once each and in
/// acceptance order.
pub proof fn lemma_subscribers_see_log<A: AdaptToLocMsg, S: Subscribe<LocalizationMsg>>(
    p: LocMsgPublisher<A, S>,
)
    requires
        p.wf(),
    ensures
        forall|i: int|
            0 <= i < p.subs().len() ==> (#[trigger] p.subs()[i]).inbox() == adapted_seq(
                p.adapter,
                p.log(),
            ),
{
}

/// Law: accepting one envelope delivers exactly one message — its adapted
/// form — to every registered subscriber.
pub proof fn lemma_one_delivery_per_subscriber<A: AdaptToLocMsg, S: Subscribe<LocalizationMsg>>(
    pre: LocMsgPublisher<A, S>,
    post: LocMsgPublisher<A, S>,
    e: MsgWithMeta,
)
    requires
        pre.wf(),
        post.wf(),
        post.adapter == pre.adapter,
        post.subs().len() == pre.subs().len(),
        post.log() == pre.log().push(e),
    ensures
        forall|i: int|
            0 <= i < post.subs().len() ==> (#[trigger] post.subs()[i]).inbox()
                == pre.subs()[i].inbox().push(pre.adapter.adapt_spec(e)->Ok_0),
{
    assert(adapted_seq(pre.adapter, pre.log().push(e)) =~= adapted_seq(
        pre.adapter,
        pre.log(),
    ).push(pre.adapter.adapt_spec(e)->Ok_0));
    assert forall|i: int|
        0 <= i < post.subs().len() implies (#[trigger] post.subs()[i]).inbox()
        == pre.subs()[i].inbox().push(pre.adapter.adapt_spec(e)->Ok_0) by {
        assert(post.subs()[i].inbox() == post.subscriber_registry.notified());
        assert(pre.subs()[i].inbox() == pre.subscriber_registry.notified());
    }
}

/// Of a queue of envelopes, the subsequence that publisher `p` accepts:
/// those envelopes of `p`'s message type whose payload decodes, in queue
/// order.
pub open spec fn routed_to<P: Publish<MsgWithMeta>>(p: P, q: Seq<MsgWithMeta>) -> Seq<MsgWithMeta>
    decreases q.len(),
{
    if q.len() == 0 {
        Seq::empty()
    } else {
        let rest = routed_to(p, q.drop_first());
        if q[0].msg_type == p.msg_type_spec() && p.outcome_spec(q[0]) is Ok {
            seq![q[0]] + rest
        } else {
            rest
        }
    }
}

/// How a publisher reacts to a single envelope.
pub proof fn lemma_routed_to_singleton<P: Publish<MsgWithMeta>>(p: P, m: MsgWithMeta)
    ensures
        routed_to(p, seq![m]) == if m.msg_type == p.msg_type_spec() && p.outcome_spec(m) is Ok {
            seq![m]
        } else {
            Seq::<MsgWithMeta>::empty()
        },
{
    assert(seq![m].drop_first() =~= Seq::<MsgWithMeta>::empty());
    assert(routed_to(p, seq![m].drop_first()) =~= Seq::<MsgWithMeta>::empty());
    assert(seq![m][0] == m);
    assert(seq![m] + Seq::<MsgWithMeta>::empty() =~= seq![m]);
}

/// Law: delivery preserves queue order. The envelopes that a publisher
/// accepts out of two batches processed one after the other are exactly the
/// accepted envelopes of the first batch followed by those of the second.
pub proof fn lemma_routed_append<P: Publish<MsgWithMeta>>(
    p: P,
    q1: Seq<MsgWithMeta>,
    q2: Seq<MsgWithMeta>,
)
    ensures
        routed_to(p, q1 + q2) == routed_to(p, q1) + routed_to(p, q2),
    decreases q1.len(),
{
    if q1.len() == 0 {
        assert(q1 + q2 =~= q2);
        assert(routed_to(p, q1) + routed_to(p, q2) =~= routed_to(p, q2));
    } else {
        assert((q1 + q2).drop_first() =~= q1.drop_first() + q2);
        assert((q1 + q2)[0] == q1[0]);
        assert((q1 + q2).len() > 0);
        lemma_routed_append(p, q1.drop_first(), q2);
        if q1[0].msg_type == p.msg_type_spec() && p.outcome_spec(q1[0]) is Ok {
            assert(seq![q1[0]] + (routed_to(p, q1.drop_first()) + routed_to(p, q2)) =~= (seq![
                q1[0],
            ] + routed_to(p, q1.drop_first())) + routed_to(p, q2));
        }
    }
}

/// The ingestion and dispatch hub: envelopes are queued by `send_new_msg`
/// and handed, in queue order, to the publisher registered for their message
/// type. The routing table is fixed at construction; the hub is running
/// until `stop` is called, a one-way transition.
pub struct CommunicationHandler<P: Publish<MsgWithMeta>> {
    pub queue: Vec<MsgWithMeta>,
    pub publishers: Vec<P>,
    pub running: bool,
}

/// The routing table that a sequence of publishers builds up: publishers are
/// keyed by their message type, and of two publishers with the same type the
/// later one replaces the earlier.
pub open spec fn table_of<P: Publish<MsgWithMeta>>(input: Seq<P>) -> Seq<P>
    decreases input.len(),
{
    if input.len() == 0 {
        Seq::empty()
    } else {
        let t = table_of(input.drop_last());
        let p = input.last();
        if exists|i: int|
            0 <= i < t.len() && (#[trigger] t[i]).msg_type_spec() == p.msg_type_spec() {
            t.update(
                choose|i: int|
                    0 <= i < t.len() && (#[trigger] t[i]).msg_type_spec() == p.msg_type_spec(),
                p,
            )
        } else {
            t.push(p)
        }
    }
}

impl<P: Publish<MsgWithMeta>> CommunicationHandler<P> {
    /// Every publisher is well formed and holds a distinct message type.
    pub open spec fn wf(&self) -> bool {
        &&& forall|i: int| 0 <= i < self.publishers@.len() ==> (#[trigger] self.publishers@[i]).wf()
        &&& forall|i: int, j: int|
            0 <= i < j < self.publishers@.len() ==> self.publishers@[i].msg_type_spec()
                != self.publishers@[j].msg_type_spec()
    }

    /// Whether some publisher is registered for message type `t`.
    pub open spec fn has_route(&self, t: InputMsgType) -> bool {
        exists|i: int|
            0 <= i < self.publishers@.len() && (#[trigger] self.publishers@[i]).msg_type_spec()
                == t
    }

    /// The index of the publisher registered for `t` (meaningful only when
    /// `has_route(t)` holds; unique by well-formedness).
    pub open spec fn route_index(&self, t: InputMsgType) -> int {
        choose|i: int|
            0 <= i < self.publishers@.len() && (#[trigger] self.publishers@[i]).msg_type_spec()
                == t
    }

    /// What dispatching envelope `m` reports: a routing failure when no
    /// publisher matches, a decode failure when the routed publisher's
    /// adapter rejects the payload, and a delivery otherwise.
    pub open spec fn report_of(&self, m: MsgWithMeta) -> DispatchReport {
        if !self.has_route(m.msg_type) {
            DispatchReport::NoPublisher(m.msg_type)
        } else {
            match self.publishers@[self.route_index(m.msg_type)].outcome_spec(m) {
                Ok(u) => DispatchReport::Delivered,
                Err(e) => DispatchReport::DecodeFailed(e),
            }
        }
    }

    /// Build the hub from the full set of publishers, keyed by message type
    /// (of two publishers with the same type the later replaces the
    /// earlier), with an empty queue, in the running state.
    pub fn new(publishers: Vec<P>) -> (h: Self)
        requires
            forall|i: int| 0 <= i < publishers@.len() ==> (#[trigger] publishers@[i]).wf(),
        ensures
            h.wf(),
            h.running,
            h.queue@ == Seq::<MsgWithMeta>::empty(),
            h.publishers@ == table_of(publishers@),
    {
        let ghost input0 = publishers@;
        let mut input = publishers;
        let mut table: Vec<P> = Vec::new();
        let ghost mut k: int = 0;
        while input.len() > 0
            invariant
                0 <= k <= input0.len(),
                input@ == input0.skip(k),
                table@ == table_of(input0.take(k)),
                forall|i: int| 0 <= i < table@.len() ==> (#[trigger] table@[i]).wf(),
                forall|i: int, j: int|
                    0 <= i < j < table@.len() ==> table@[i].msg_type_spec()
                        != table@[j].msg_type_spec(),
                forall|i: int| 0 <= i < input0.len() ==> (#[trigger] input0[i]).wf(),
            decreases input@.len(),
        {
            let ghost pre_input = input@;
            let p = input.remove(0);
            proof {
                assert(p == input0[k]);
                assert(input@ =~= input0.skip(k + 1));
            }
            let t = p.get_input_msg_type();
            let n = table.len();
            let mut j: usize = 0;
            let mut found: bool = false;
            let mut idx: usize = 0;
            while j < n
                invariant
                    0 <= j <= n,
                    n == table@.len(),
                    t == p.msg_type_spec(),
                    found ==> idx < n && table@[idx as int].msg_type_spec() == t,
                    !found ==> forall|l: int|
                        0 <= l < j ==> (#[trigger] table@[l]).msg_type_spec() != t,
                decreases n - j,
            {
                let tj = table[j].get_input_msg_type();
                if !found && tj == t {
                    found = true;
                    idx = j;
                }
                j += 1;
            }
            let ghost pre_table = table@;
            proof {
                assert(input0.take(k + 1).drop_last() =~= input0.take(k));
                assert(input0.take(k + 1).last() == input0[k]);
            }
            if found {
                let prev = table.remove(idx);
                table.insert(idx, p);
                proof {
                    assert(table@ =~= pre_table.update(idx as int, p));
                    let tk = table_of(input0.take(k));
                    assert(tk == pre_table);
                    assert(tk[idx as int].msg_type_spec() == input0[k].msg_type_spec());
                    assert(exists|i: int|
                        0 <= i < tk.len() && (#[trigger] tk[i]).msg_type_spec()
                            == input0[k].msg_type_spec());
                    let i0 = choose|i: int|
                        0 <= i < tk.len() && (#[trigger] tk[i]).msg_type_spec()
                            == input0[k].msg_type_spec();
                    assert(i0 == idx);
                    assert(table@ == table_of(input0.take(k + 1)));
                    k = k + 1;
                }
            } else {
                table.push(p);
                proof {
                    let tk = table_of(input0.take(k));
                    assert(tk == pre_table);
                    assert forall|i: int|
                        0 <= i < tk.len() implies (#[trigger] tk[i]).msg_type_spec()
                        != input0[k].msg_type_spec() by {
                        assert(pre_table[i].msg_type_spec() != t);
                    }
                    assert(table@ == table_of(input0.take(k + 1)));
                    k = k + 1;
                }
            }
        }
        proof {
            assert(k == input0.len());
            assert(input0.take(k) =~= input0);
        }
        CommunicationHandler { queue: Vec::new(), publishers: table, running: true }
    }

    /// Enqueue an envelope for asynchronous dispatch; never blocks on
    /// dispatch completion. The hub must be running.
    pub fn send_new_msg(&mut self, msg_with_meta: MsgWithMeta)
        requires
            old(self).running,
        ensures
            final(self).queue@ == old(self).queue@.push(msg_with_meta),
            final(self).publishers@ == old(self).publishers@,
            final(self).running == old(self).running,
            old(self).wf() ==> final(self).wf(),
    {
        self.queue.push(msg_with_meta);
    }

    /// Take the next envelope off the queue and dispatch it: route it to the
    /// publisher of its message type, or report a routing failure and drop
    /// it — the hub keeps running either way. Returns what happened, or
    /// nothing when the queue is empty.
    pub fn dispatch_one(&mut self) -> (r: Option<DispatchReport>)
        requires
            old(self).wf(),
        ensures
            final(self).wf(),
            final(self).running == old(self).running,
            final(self).publishers@.len() == old(self).publishers@.len(),
            forall|i: int|
                0 <= i < old(self).publishers@.len()
                    ==> (#[trigger] final(self).publishers@[i]).msg_type_spec()
                    == old(self).publishers@[i].msg_type_spec(),
            forall|i: int, m: MsgWithMeta|
                0 <= i < old(self).publishers@.len()
                    ==> (#[trigger] final(self).publishers@[i].outcome_spec(m))
                    == old(self).publishers@[i].outcome_spec(m),
            old(self).queue@.len() == 0 ==> r is None && final(self).queue@ == old(self).queue@
                && final(self).publishers@ == old(self).publishers@,
            old(self).queue@.len() > 0 ==> r == Some(old(self).report_of(old(self).queue@[0]))
                && final(self).queue@ == old(self).queue@.drop_first(),
            old(self).queue@.len() > 0 && !old(self).has_route(old(self).queue@[0].msg_type)
                ==> final(self).publishers@ == old(self).publishers@,
            old(self).queue@.len() > 0 && old(self).has_route(old(self).queue@[0].msg_type) ==> (
            forall|i: int|
                0 <= i < old(self).publishers@.len() && i != old(self).route_index(
                    old(self).queue@[0].msg_type,
                ) ==> (#[trigger] final(self).publishers@[i]).log()
                    == old(self).publishers@[i].log()),
            old(self).queue@.len() > 0 && old(self).has_route(old(self).queue@[0].msg_type) ==> (
            final(self).publishers@[old(self).route_index(old(self).queue@[0].msg_type)].log()
                == if old(self).publishers@[old(self).route_index(
                old(self).queue@[0].msg_type,
            )].outcome_spec(old(self).queue@[0]) is Ok {
                old(self).publishers@[old(self).route_index(
                    old(self).queue@[0].msg_type,
                )].log().push(old(self).queue@[0])
            } else {
                old(self).publishers@[old(self).route_index(old(self).queue@[0].msg_type)].log()
            }),
    {
        if self.queue.len() == 0 {
            return None;
        }
        let m = self.queue.remove(0);
        let ghost m0 = m;
        let t = m.msg_type;
        proof {
            assert(self.queue@ =~= old(self).queue@.drop_first());
            assert(self.publishers@ == old(self).publishers@);
        }
        let n = self.publishers.len();
        let mut j: usize = 0;
        let mut found: bool = false;
        let mut idx: usize = 0;
        while j < n
            invariant
                0 <= j <= n,
                n == self.publishers@.len(),
                self.publishers@ == old(self).publishers@,
                self.queue@ == old(self).queue@.drop_first(),
                self.running == old(self).running,
                t == m0.msg_type,
                found ==> idx < n && self.publishers@[idx as int].msg_type_spec() == t,
                !found ==> forall|l: int|
                    0 <= l < j ==> (#[trigger] self.publishers@[l]).msg_type_spec() != t,
            decreases n - j,
        {
            let tj = self.publishers[j].get_input_msg_type();
            if !found && tj == t {
                found = true;
                idx = j;
            }
            j += 1;
        }
        if found {
            proof {
                assert(old(self).has_route(t));
                let i0 = old(self).route_index(t);
                assert(0 <= i0 < old(self).publishers@.len() && old(
                    self,
                ).publishers@[i0].msg_type_spec() == t);
                assert(i0 == idx);
            }
            let ghost pre_pubs = self.publishers@;
            let mut p = self.publishers.remove(idx);
            let pr = p.publish(m);
            self.publishers.insert(idx, p);
            proof {
                assert(self.publishers@ =~= pre_pubs.update(idx as int, self.publishers@[idx as int]));
            }
            match pr {
                Ok(u) => Some(DispatchReport::Delivered),
                Err(e) => Some(DispatchReport::DecodeFailed(e)),
            }
        } else {
            proof {
                assert forall|i: int|
                    0 <= i < old(self).publishers@.len() implies (#[trigger] old(
                    self,
                ).publishers@[i]).msg_type_spec() != t by {
                    assert(self.publishers@[i].msg_type_spec() != t);
                }
                assert(!old(self).has_route(t));
            }
            Some(DispatchReport::NoPublisher(t))
        }
    }

    /// Routing decisions depend only on the publishers' message types and
    /// outcomes, both of which dispatching preserves; so two hub states that
    /// agree on them route and report alike.
    pub proof fn lemma_report_of_congruent(&self, other: &Self, m: MsgWithMeta)
        requires
            self.wf(),
            self.publishers@.len() == other.publishers@.len(),
            forall|i: int|
                0 <= i < self.publishers@.len() ==> (#[trigger] self.publishers@[i]).msg_type_spec()
                    == other.publishers@[i].msg_type_spec(),
            forall|i: int, mm: MsgWithMeta|
                0 <= i < self.publishers@.len() ==> (#[trigger] self.publishers@[i].outcome_spec(
                    mm,
                )) == other.publishers@[i].outcome_spec(mm),
        ensures
            self.has_route(m.msg_type) == other.has_route(m.msg_type),
            self.has_route(m.msg_type) ==> self.route_index(m.msg_type) == other.route_index(
                m.msg_type,
            ),
            self.report_of(m) == other.report_of(m),
    {
        let t = m.msg_type;
        if self.has_route(t) {
            let k1 = self.route_index(t);
            assert(0 <= k1 < self.publishers@.len() && self.publishers@[k1].msg_type_spec() == t);
            assert(other.publishers@[k1].msg_type_spec() == t);
            assert(other.has_route(t));
            let k2 = other.route_index(t);
            assert(0 <= k2 < other.publishers@.len() && other.publishers@[k2].msg_type_spec() == t);
            assert(self.publishers@[k2].msg_type_spec() == t);
            assert(k1 == k2);
            assert(self.publishers@[k1].outcome_spec(m) == other.publishers@[k2].outcome_spec(m));
        } else {
            if other.has_route(t) {
                let k2 = other.route_index(t);
                assert(0 <= k2 < other.publishers@.len() && other.publishers@[k2].msg_type_spec()
                    == t);
                assert(self.publishers@[k2].msg_type_spec() == t);
                assert(false);
            }
        }
    }

    /// Dispatch envelopes until the queue is empty, reporting what became of
    /// each: the hub stays running across routing and decode failures, and
    /// every publisher's log is extended by exactly the envelopes of its
    /// type that its adapter accepts, in queue order.
    pub fn drain(&mut self) -> (reports: Vec<DispatchReport>)
        requires
            old(self).wf(),
        ensures
            final(self).wf(),
            final(self).queue@.len() == 0,
            final(self).running == old(self).running,
            final(self).publishers@.len() == old(self).publishers@.len(),
            forall|i: int|
                0 <= i < old(self).publishers@.len()
                    ==> (#[trigger] final(self).publishers@[i]).msg_type_spec()
                    == old(self).publishers@[i].msg_type_spec(),
            forall|i: int, m: MsgWithMeta|
                0 <= i < old(self).publishers@.len()
                    ==> (#[trigger] final(self).publishers@[i].outcome_spec(m))
                    == old(self).publishers@[i].outcome_spec(m),
            reports@.len() == old(self).queue@.len(),
            forall|j: int|
                0 <= j < old(self).queue@.len() ==> reports@[j] == old(self).report_of(
                    #[trigger] old(self).queue@[j],
                ),
            forall|i: int|
                0 <= i < old(self).publishers@.len()
                    ==> (#[trigger] final(self).publishers@[i]).log()
                    == old(self).publishers@[i].log() + routed_to(
                    old(self).publishers@[i],
                    old(self).queue@,
                ),
    {
        let ghost q0 = old(self).queue@;
        let mut reports: Vec<DispatchReport> = Vec::new();
        while self.queue.len() > 0
            invariant
                old(self).wf(),
                self.wf(),
                self.running == old(self).running,
                self.publishers@.len() == old(self).publishers@.len(),
                forall|i: int|
                    0 <= i < old(self).publishers@.len()
                        ==> (#[trigger] self.publishers@[i]).msg_type_spec()
                        == old(self).publishers@[i].msg_type_spec(),
                forall|i: int, m: MsgWithMeta|
                    0 <= i < old(self).publishers@.len()
                        ==> (#[trigger] self.publishers@[i].outcome_spec(m))
                        == old(self).publishers@[i].outcome_spec(m),
                reports@.len() + self.queue@.len() == q0.len(),
                self.queue@ == q0.skip(reports@.len() as int),
                forall|j: int|
                    0 <= j < reports@.len() ==> reports@[j] == old(self).report_of(
                        #[trigger] q0[j],
                    ),
                forall|i: int|
                    0 <= i < old(self).publishers@.len() ==> (#[trigger] self.publishers@[i]).log()
                        == old(self).publishers@[i].log() + routed_to(
                        old(self).publishers@[i],
                        q0.take(reports@.len() as int),
                    ),
            decreases self.queue@.len(),
        {
            let ghost pre = *self;
            let ghost kk = reports@.len() as int;
            let ghost m = q0[kk];
            proof {
                assert(pre.queue@[0] == q0.skip(kk)[0]);
                assert(pre.queue@[0] == m);
            }
            let rep = self.dispatch_one().unwrap();
            reports.push(rep);
            proof {
                old(self).lemma_report_of_congruent(&pre, m);
                assert(rep == old(self).report_of(m));
                assert(self.queue@ =~= q0.skip(kk + 1));
                assert(q0.take(kk + 1) =~= q0.take(kk) + seq![m]);
                assert forall|i: int|
                    0 <= i < old(self).publishers@.len()
                    implies (#[trigger] self.publishers@[i]).log()
                    == old(self).publishers@[i].log() + routed_to(
                    old(self).publishers@[i],
                    q0.take(kk + 1),
                ) by {
                    let oldp = old(self).publishers@[i];
                    lemma_routed_append(oldp, q0.take(kk), seq![m]);
                    lemma_routed_to_singleton(oldp, m);
                    if pre.has_route(m.msg_type) {
                        let k = pre.route_index(m.msg_type);
                        assert(old(self).route_index(m.msg_type) == k);
                        assert(old(self).has_route(m.msg_type));
                        assert(0 <= k < old(self).publishers@.len() && old(
                            self,
                        ).publishers@[k].msg_type_spec() == m.msg_type);
                        if i == k {
                            assert(pre.publishers@[i].outcome_spec(m) == oldp.outcome_spec(m));
                            assert(self.publishers@[i].log() == if oldp.outcome_spec(m) is Ok {
                                pre.publishers@[i].log().push(m)
                            } else {
                                pre.publishers@[i].log()
                            });
                            if oldp.outcome_spec(m) is Ok {
                                assert(routed_to(oldp, seq![m]) == seq![m]);
                                assert((oldp.log() + routed_to(oldp, q0.take(kk))) + seq![m]
                                    =~= oldp.log() + (routed_to(oldp, q0.take(kk)) + seq![m]));
                            } else {
                                assert(routed_to(oldp, seq![m]) =~= Seq::<MsgWithMeta>::empty());
                                assert(routed_to(oldp, q0.take(kk)) + Seq::<MsgWithMeta>::empty()
                                    =~= routed_to(oldp, q0.take(kk)));
                            }
                        } else {
                            assert(oldp.msg_type_spec() != m.msg_type);
                            assert(routed_to(oldp, seq![m]) =~= Seq::<MsgWithMeta>::empty());
                            assert(routed_to(oldp, q0.take(kk)) + Seq::<MsgWithMeta>::empty()
                                =~= routed_to(oldp, q0.take(kk)));
                            assert(self.publishers@[i].log() == pre.publishers@[i].log());
                        }
                    } else {
                        assert(!old(self).has_route(m.msg_type));
                        assert(oldp.msg_type_spec() != m.msg_type);
                        assert(routed_to(oldp, seq![m]) =~= Seq::<MsgWithMeta>::empty());
                        assert(routed_to(oldp, q0.take(kk)) + Seq::<MsgWithMeta>::empty()
                            =~= routed_to(oldp, q0.take(kk)));
                        assert(self.publishers@[i].log() == pre.publishers@[i].log());
                    }
                }
            }
        }
        proof {
            assert(q0.take(reports@.len() as int) =~= q0);
        }
        reports
    }

    /// Graceful shutdown: drain the in-flight envelopes, then leave the
    /// running state. The transition is one-way; a stopped hub accepts no
    /// further sends.
    pub fn stop(&mut self) -> (reports: Vec<DispatchReport>)
        requires
            old(self).wf(),
        ensures
            final(self).wf(),
            !final(self).running,
            final(self).queue@.len() == 0,
            reports@.len() == old(self).queue@.len(),
            forall|j: int|
                0 <= j < old(self).queue@.len() ==> reports@[j] == old(self).report_of(
                    #[trigger] old(self).queue@[j],
                ),
            forall|i: int|
                0 <= i < old(self).publishers@.len()
                    ==> (#[trigger] final(self).publishers@[i]).log()
                    == old(self).publishers@[i].log() + routed_to(
                    old(self).publishers@[i],
                    old(self).queue@,
                ),
    {
        let reports = self.drain();
        self.running = false;
        reports
    }
}

} // verus!
