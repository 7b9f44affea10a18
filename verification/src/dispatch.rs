//! The dispatch engine: interprets one decoded request against the
//! subscription table and the peer registry, and produces the response for
//! the requester together with the fan-out deliveries a publish causes.
//!
//! Enqueueing the deliveries on the target connections' outbound queues is
//! the caller's task; a delivery to a connection whose queue is gone is
//! silently dropped there, never an error for the publisher.

use crate::registry::ConnectionId;
use crate::registry::Shared;
use crate::registry::SubscriptionTable;
use crate::registry::without;
use crate::types::Request;
use crate::types::Response;
use crate::types::ResponseView;
use crate::types::Status;
use crate::types::Type;
use crate::types::clone_body;
use crate::types::opt_bytes_view;
use vstd::prelude::*;

verus! {

/// One fan-out delivery: the response to enqueue on the outbound queue of
/// the target connection.
pub struct Delivery {
    pub target: ConnectionId,
    pub response: Response,
}

/// The dispatch engine. It owns the subscription table; the peer registry
/// is handed in per request.
pub struct Core {
    table: SubscriptionTable,
}

/// The kind a response echoes: the request's own kind, except that the
/// delivery-only `Message` kind is answered as `Generic`.
pub open spec fn echo_kind(k: Type) -> Type {
    match k {
        Type::Message => Type::Generic,
        _ => k,
    }
}

/// The status a request's own response carries: every recognized kind is
/// acknowledged `Okay`; a client must not send `Message`.
pub open spec fn reply_status(k: Type) -> Status {
    if k == Type::Message {
        Status::BadRequest
    } else {
        Status::Okay
    }
}

/// The response the requester itself receives.
pub open spec fn reply_view(kind: Type, path: Seq<char>, status: Status) -> ResponseView {
    ResponseView {
        kind,
        path: Some(path),
        status,
        headers: Seq::empty(),
        body: None,
    }
}

/// The response a subscriber receives when a publish reaches it.
pub open spec fn message_view(path: Seq<char>, body: Option<Seq<u8>>) -> ResponseView {
    ResponseView {
        kind: Type::Message,
        path: Some(path),
        status: Status::Okay,
        headers: Seq::empty(),
        body,
    }
}

/// The connections a publish from `requester` reaches, in subscription
/// order: every entry of `subs` that is not the requester itself and is a
/// registered peer. Duplicate entries yield duplicate deliveries.
pub open spec fn fanout_targets(
    subs: Seq<ConnectionId>,
    peers: Set<ConnectionId>,
    requester: ConnectionId,
) -> Seq<ConnectionId> {
    subs.filter(|s: ConnectionId| s != requester && peers.contains(s))
}

/// The targets of a list of deliveries, in order.
pub open spec fn delivery_targets(ds: Seq<Delivery>) -> Seq<ConnectionId> {
    ds.map_values(|d: Delivery| d.target)
}

/// How many entries of `subs` are `id`.
pub open spec fn occurrences(subs: Seq<ConnectionId>, id: ConnectionId) -> nat
    decreases subs.len(),
{
    if subs.len() == 0 {
        0
    } else {
        occurrences(subs.drop_last(), id) + if subs.last() == id {
            1nat
        } else {
            0nat
        }
    }
}

impl Core {
    /// The model: the subscribers of topic `p`, in subscription order.
    pub closed spec fn subscribers_of(&self, p: Seq<char>) -> Seq<ConnectionId> {
        self.table.subscribers_of(p)
    }

    pub fn new() -> (c: Core)
        ensures
            forall|p: Seq<char>| c.subscribers_of(p) == Seq::<ConnectionId>::empty(),
    {
        Core { table: SubscriptionTable::new() }
    }

    /// Interprets one request from connection `requester` and returns the
    /// response owed to the requester, together with the fan-out deliveries
    /// a publish triggers. A publish never delivers to its own requester,
    /// nor to an unregistered connection.
    pub fn handle_request(
        &mut self,
        shared: &Shared,
        request: Request,
        requester: ConnectionId,
    ) -> (r: (Response, Vec<Delivery>))
        ensures
            r.0@ == reply_view(echo_kind(request.kind), request.path@, reply_status(request.kind)),
            request.kind == Type::Subscribe ==> final(self).subscribers_of(request.path@) == old(
                self,
            ).subscribers_of(request.path@).push(requester),
            request.kind == Type::Unsubscribe ==> final(self).subscribers_of(request.path@)
                == without(old(self).subscribers_of(request.path@), requester),
            forall|q: Seq<char>|
                q != request.path@ ==> final(self).subscribers_of(q) == old(self).subscribers_of(q),
            request.kind != Type::Subscribe && request.kind != Type::Unsubscribe ==> forall|
                q: Seq<char>,
            | final(self).subscribers_of(q) == old(self).subscribers_of(q),
            request.kind == Type::Publish ==> delivery_targets(r.1@) == fanout_targets(
                old(self).subscribers_of(request.path@),
                shared@,
                requester,
            ),
            request.kind == Type::Publish ==> forall|i: int|
                0 <= i < r.1@.len() ==> r.1@[i].response@ == message_view(
                    request.path@,
                    opt_bytes_view(request.body),
                ),
            request.kind != Type::Publish ==> r.1@.len() == 0,
            forall|i: int| 0 <= i < r.1@.len() ==> r.1@[i].target != requester,
            forall|i: int| 0 <= i < r.1@.len() ==> shared@.contains(r.1@[i].target),
    {
        match request.kind {
            Type::Publish => self.publish(shared, request, requester),
            Type::Subscribe => self.subscribe(request, requester),
            Type::Unsubscribe => self.unsubscribe(request, requester),
            Type::Generic => (self.generic(request), Vec::new()),
            Type::Message => {
                let response = Response {
                    kind: Type::Generic,
                    path: Some(request.path),
                    status: Status::BadRequest,
                    headers: Vec::new(),
                    body: None,
                };
                (response, Vec::new())
            },
        }
    }

    /// Publish: fans the body out to every registered subscriber of the
    /// path other than the requester, and acknowledges the publisher with
    /// `Okay` no matter how many deliveries that produced.
    fn publish(&self, shared: &Shared, request: Request, requester: ConnectionId) -> (r: (
        Response,
        Vec<Delivery>,
    ))
        ensures
            r.0@ == reply_view(Type::Publish, request.path@, Status::Okay),
            delivery_targets(r.1@) == fanout_targets(
                self.subscribers_of(request.path@),
                shared@,
                requester,
            ),
            forall|i: int|
                0 <= i < r.1@.len() ==> r.1@[i].response@ == message_view(
                    request.path@,
                    opt_bytes_view(request.body),
                ),
            forall|i: int| 0 <= i < r.1@.len() ==> r.1@[i].target != requester,
            forall|i: int| 0 <= i < r.1@.len() ==> shared@.contains(r.1@[i].target),
    {
        let subs = self.table.subscribers(&request.path);
        let mut deliveries: Vec<Delivery> = Vec::new();
        let mut i: usize = 0;
        proof {
            reveal_with_fuel(Seq::<_>::filter, 2);
            assert(subs@.take(0) =~= Seq::<ConnectionId>::empty());
            assert(delivery_targets(deliveries@) =~= fanout_targets(
                subs@.take(0),
                shared@,
                requester,
            ));
        }
        while i < subs.len()
            invariant
                0 <= i <= subs.len(),
                subs@ == self.subscribers_of(request.path@),
                delivery_targets(deliveries@) == fanout_targets(
                    subs@.take(i as int),
                    shared@,
                    requester,
                ),
                forall|k: int|
                    0 <= k < deliveries@.len() ==> deliveries@[k].response@ == message_view(
                        request.path@,
                        opt_bytes_view(request.body),
                    ),
                forall|k: int| 0 <= k < deliveries@.len() ==> deliveries@[k].target != requester,
                forall|k: int|
                    0 <= k < deliveries@.len() ==> shared@.contains(deliveries@[k].target),
            decreases subs.len() - i,
        {
            let ghost pre = subs@.take(i as int);
            let ghost post = subs@.take(i as int + 1);
            proof {
                reveal_with_fuel(Seq::<_>::filter, 2);
                assert(post.drop_last() =~= pre);
                assert(post.last() == subs@[i as int]);
            }
            let target = subs[i];
            if target != requester && shared.get_peer(target) {
                let response = Response {
                    kind: Type::Message,
                    path: Some(request.path.clone()),
                    status: Status::Okay,
                    headers: Vec::new(),
                    body: clone_body(&request.body),
                };
                proof {
                    assert(response@ =~= message_view(request.path@, opt_bytes_view(request.body)));
                }
                deliveries.push(Delivery { target, response });
                proof {
                    assert(fanout_targets(post, shared@, requester) == fanout_targets(
                        pre,
                        shared@,
                        requester,
                    ).push(target));
                    assert(delivery_targets(deliveries@) =~= fanout_targets(
                        post,
                        shared@,
                        requester,
                    ));
                }
            } else {
                proof {
                    assert(fanout_targets(post, shared@, requester) == fanout_targets(
                        pre,
                        shared@,
                        requester,
                    ));
                }
            }
            i += 1;
        }
        proof {
            assert(subs@.take(subs@.len() as int) =~= subs@);
        }
        let response = Response {
            kind: Type::Publish,
            path: Some(request.path),
            status: Status::Okay,
            headers: Vec::new(),
            body: None,
        };
        (response, deliveries)
    }

    /// Subscribe: appends the requester to the path's subscriber list,
    /// creating the list if the topic was never seen. Subscribing twice
    /// yields two entries, and so two deliveries per future publish.
    fn subscribe(&mut self, request: Request, requester: ConnectionId) -> (r: (
        Response,
        Vec<Delivery>,
    ))
        ensures
            r.0@ == reply_view(Type::Subscribe, request.path@, Status::Okay),
            final(self).subscribers_of(request.path@) == old(self).subscribers_of(
                request.path@,
            ).push(requester),
            forall|q: Seq<char>|
                q != request.path@ ==> final(self).subscribers_of(q) == old(self).subscribers_of(q),
            r.1@.len() == 0,
    {
        self.table.subscribe(&request.path, requester);
        let response = Response {
            kind: Type::Subscribe,
            path: Some(request.path),
            status: Status::Okay,
            headers: Vec::new(),
            body: None,
        };
        (response, Vec::new())
    }

    /// Unsubscribe: removes every entry of the requester from the path's
    /// subscriber list; an absent topic or identifier is a no-op, not an
    /// error.
    fn unsubscribe(&mut self, request: Request, requester: ConnectionId) -> (r: (
        Response,
        Vec<Delivery>,
    ))
        ensures
            r.0@ == reply_view(Type::Unsubscribe, request.path@, Status::Okay),
            final(self).subscribers_of(request.path@) == without(
                old(self).subscribers_of(request.path@),
                requester,
            ),
            forall|q: Seq<char>|
                q != request.path@ ==> final(self).subscribers_of(q) == old(self).subscribers_of(q),
            r.1@.len() == 0,
    {
        self.table.unsubscribe(&request.path, requester);
        let response = Response {
            kind: Type::Unsubscribe,
            path: Some(request.path),
            status: Status::Okay,
            headers: Vec::new(),
            body: None,
        };
        (response, Vec::new())
    }

    /// Generic: a pure acknowledgement; no state is read or changed.
    fn generic(&self, request: Request) -> (r: Response)
        ensures
            r@ == reply_view(Type::Generic, request.path@, Status::Okay),
    {
        Response {
            kind: Type::Generic,
            path: Some(request.path),
            status: Status::Okay,
            headers: Vec::new(),
            body: None,
        }
    }
}

/// Each subscription entry of `c` yields exactly one delivery to `c` per
/// publish from another, registered-or-not, connection: deliveries to `c`
/// match `c`'s entries one for one, so one more Subscribe means one more
/// delivery.
pub proof fn lemma_publish_delivers_per_entry(
    subs: Seq<ConnectionId>,
    peers: Set<ConnectionId>,
    publisher: ConnectionId,
    c: ConnectionId,
)
    requires
        c != publisher,
        peers.contains(c),
    ensures
        occurrences(fanout_targets(subs, peers, publisher), c) == occurrences(subs, c),
        occurrences(fanout_targets(subs.push(c), peers, publisher), c) == occurrences(
            fanout_targets(subs, peers, publisher),
            c,
        ) + 1,
    decreases subs.len(),
{
    reveal_with_fuel(Seq::<_>::filter, 2);
    if subs.len() == 0 {
        assert(fanout_targets(subs, peers, publisher) =~= Seq::<ConnectionId>::empty());
    } else {
        let dl = subs.drop_last();
        let last = subs.last();
        let rest = fanout_targets(dl, peers, publisher);
        lemma_publish_delivers_per_entry(dl, peers, publisher, c);
        if last != publisher && peers.contains(last) {
            assert(fanout_targets(subs, peers, publisher) == rest.push(last));
            assert(rest.push(last).drop_last() =~= rest);
            assert(rest.push(last).last() == last);
        } else {
            assert(fanout_targets(subs, peers, publisher) == rest);
            assert(last != c);
        }
    }
    let fs = fanout_targets(subs, peers, publisher);
    assert(subs.push(c).drop_last() =~= subs);
    assert(subs.push(c).last() == c);
    assert(fanout_targets(subs.push(c), peers, publisher) == fs.push(c));
    assert(fs.push(c).drop_last() =~= fs);
    assert(fs.push(c).last() == c);
}

/// How many deliveries reach `c` is never more than the number of `c`'s
/// subscription entries.
proof fn lemma_fanout_occurrences_le(
    subs: Seq<ConnectionId>,
    peers: Set<ConnectionId>,
    publisher: ConnectionId,
    c: ConnectionId,
)
    ensures
        occurrences(fanout_targets(subs, peers, publisher), c) <= occurrences(subs, c),
    decreases subs.len(),
{
    reveal_with_fuel(Seq::<_>::filter, 2);
    if subs.len() == 0 {
        assert(fanout_targets(subs, peers, publisher) =~= Seq::<ConnectionId>::empty());
    } else {
        let dl = subs.drop_last();
        let last = subs.last();
        let rest = fanout_targets(dl, peers, publisher);
        lemma_fanout_occurrences_le(dl, peers, publisher, c);
        if last != publisher && peers.contains(last) {
            assert(fanout_targets(subs, peers, publisher) == rest.push(last));
            assert(rest.push(last).drop_last() =~= rest);
            assert(rest.push(last).last() == last);
        } else {
            assert(fanout_targets(subs, peers, publisher) == rest);
        }
    }
}

/// Removing `c` removes all of its entries.
pub proof fn lemma_without_removes_all(subs: Seq<ConnectionId>, c: ConnectionId)
    ensures
        occurrences(without(subs, c), c) == 0,
    decreases subs.len(),
{
    reveal_with_fuel(Seq::<_>::filter, 2);
    if subs.len() == 0 {
        assert(without(subs, c) =~= Seq::<ConnectionId>::empty());
    } else {
        let dl = subs.drop_last();
        let last = subs.last();
        let rest = without(dl, c);
        lemma_without_removes_all(dl, c);
        if last != c {
            assert(without(subs, c) == rest.push(last));
            assert(rest.push(last).drop_last() =~= rest);
            assert(rest.push(last).last() == last);
        } else {
            assert(without(subs, c) == rest);
        }
    }
}

/// After Unsubscribe removed every entry of `c`, a following publish
/// delivers nothing to `c`.
pub proof fn lemma_unsubscribe_then_publish(
    subs: Seq<ConnectionId>,
    peers: Set<ConnectionId>,
    publisher: ConnectionId,
    c: ConnectionId,
)
    ensures
        occurrences(fanout_targets(without(subs, c), peers, publisher), c) == 0,
{
    lemma_without_removes_all(subs, c);
    lemma_fanout_occurrences_le(without(subs, c), peers, publisher, c);
}

/// A publish never delivers to its own requester, whatever the requester's
/// subscription state.
pub proof fn lemma_no_self_delivery(
    subs: Seq<ConnectionId>,
    peers: Set<ConnectionId>,
    requester: ConnectionId,
    i: int,
)
    requires
        0 <= i < fanout_targets(subs, peers, requester).len(),
    ensures
        fanout_targets(subs, peers, requester)[i] != requester,
    decreases subs.len(),
{
    reveal_with_fuel(Seq::<_>::filter, 2);
    if subs.len() > 0 {
        let rest = fanout_targets(subs.drop_last(), peers, requester);
        if i < rest.len() {
            lemma_no_self_delivery(subs.drop_last(), peers, requester, i);
        }
    }
}

} // verus!

