//! A single-type message bus: messages are appended to a queue and each
//! subscription keeps its own read cursor into that queue.
//!
//! The mathematical model is [`BusModel`]: the queued messages and, for every
//! subscription ever handed out, either its cursor (the index of its first unread
//! message) or `None` once it was dropped with [`MessageBus::unsubscribe`].
use vstd::prelude::*;

verus! {

/// The abstract state of a [`MessageBus`].
pub struct BusModel<T> {
    pub messages: Seq<T>,
    pub cursors: Seq<Option<nat>>,
}

/// Smallest live cursor among `cursors`, never larger than `bound`.
pub open spec fn min_cursor(cursors: Seq<Option<nat>>, bound: nat) -> nat
    decreases cursors.len(),
{
    if cursors.len() == 0 {
        bound
    } else {
        let rest = min_cursor(cursors.drop_last(), bound);
        match cursors.last() {
            Some(c) => if c < rest { c } else { rest },
            None => rest,
        }
    }
}

/// Whether any cursor in `cursors` belongs to a live subscription.
pub open spec fn any_live(cursors: Seq<Option<nat>>) -> bool {
    exists|i: int| 0 <= i < cursors.len() && (#[trigger] cursors[i]) is Some
}

/// A cursor after `k` messages from index `at` on were removed: a cursor past
/// `at` moves down by `k`, but not below `at`.
pub open spec fn lowered(o: Option<nat>, at: nat, k: nat) -> Option<nat> {
    match o {
        Some(v) => if v > at {
            if v >= at + k {
                Some((v - k) as nat)
            } else {
                Some(at)
            }
        } else {
            Some(v)
        },
        None => None,
    }
}

impl<T> BusModel<T> {
    pub open spec fn len(self) -> nat {
        self.messages.len()
    }

    /// `s` names a subscription that is still alive.
    pub open spec fn live(self, s: nat) -> bool {
        s < self.cursors.len() && self.cursors[s as int] is Some
    }

    pub open spec fn cursor(self, s: nat) -> nat {
        self.cursors[s as int]->0
    }

    /// The messages that subscription `s` has not read yet, in emission order.
    pub open spec fn unread(self, s: nat) -> Seq<T> {
        if self.cursor(s) < self.len() {
            self.messages.subrange(self.cursor(s) as int, self.len() as int)
        } else {
            Seq::empty()
        }
    }

    pub open spec fn empty() -> Self {
        BusModel { messages: Seq::empty(), cursors: Seq::empty() }
    }

    /// A new subscription starts after every message already queued.
    pub open spec fn subscribe(self) -> Self {
        BusModel { messages: self.messages, cursors: self.cursors.push(Some(self.len())) }
    }

    pub open spec fn unsubscribe(self, s: nat) -> Self {
        BusModel { messages: self.messages, cursors: self.cursors.update(s as int, None) }
    }

    pub open spec fn emit(self, message: T) -> Self {
        BusModel { messages: self.messages.push(message), cursors: self.cursors }
    }

    pub open spec fn set_cursor(self, s: nat, c: nat) -> Self {
        BusModel { messages: self.messages, cursors: self.cursors.update(s as int, Some(c)) }
    }

    /// Marks every queued message as read by `s`.
    pub open spec fn mark_read(self, s: nat) -> Self {
        self.set_cursor(s, self.len())
    }

    /// Removes the first unread message of `s` from the queue; every cursor
    /// past it moves down by one, so it still points at the same message.
    pub open spec fn consume_next(self, s: nat) -> Self {
        let c = self.cursor(s);
        BusModel {
            messages: self.messages.remove(c as int),
            cursors: self.cursors.map_values(|o: Option<nat>| lowered(o, c, 1)),
        }
    }

    /// Removes every unread message of `s` from the queue; every cursor past
    /// the first of them moves down to it, the place of the next new message.
    pub open spec fn consume_all(self, s: nat) -> Self {
        let c = self.cursor(s);
        if c < self.len() {
            BusModel {
                messages: self.messages.subrange(0, c as int),
                cursors: self.cursors.map_values(|o: Option<nat>| lowered(o, c, (self.len() - c) as nat)),
            }
        } else {
            self
        }
    }

    /// Drops the messages every live subscription has read, shifting the cursors
    /// down by the number dropped; with no live subscription the queue is emptied.
    pub open spec fn collect(self) -> Self {
        if !any_live(self.cursors) {
            BusModel { messages: Seq::empty(), cursors: self.cursors }
        } else {
            let k = min_cursor(self.cursors, self.len());
            BusModel {
                messages: self.messages.subrange(k as int, self.len() as int),
                cursors: self.cursors.map_values(
                    |c: Option<nat>|
                        match c {
                            Some(v) => Some((v - k) as nat),
                            None => None,
                        },
                ),
            }
        }
    }
}

/// A reader's handle on a [`MessageBus`].
pub struct Subscription {
    index: usize,
}

impl Subscription {
    pub closed spec fn id(self) -> nat {
        self.index as nat
    }
}

/// A queue of messages of one type, read independently by every subscription.
pub struct MessageBus<T> {
    messages: Vec<T>,
    cursors: Vec<Option<usize>>,
}

pub open spec fn cursor_view(c: Option<usize>) -> Option<nat> {
    match c {
        Some(v) => Some(v as nat),
        None => None,
    }
}

impl<T> View for MessageBus<T> {
    type V = BusModel<T>;

    closed spec fn view(&self) -> BusModel<T> {
        BusModel {
            messages: self.messages@,
            cursors: self.cursors@.map_values(|c: Option<usize>| cursor_view(c)),
        }
    }
}

proof fn lemma_min_cursor_bounds(cursors: Seq<Option<nat>>, bound: nat)
    ensures
        min_cursor(cursors, bound) <= bound,
        forall|i: int|
            0 <= i < cursors.len() && (#[trigger] cursors[i]) is Some ==> min_cursor(cursors, bound)
                <= cursors[i]->0,
    decreases cursors.len(),
{
    if cursors.len() > 0 {
        lemma_min_cursor_bounds(cursors.drop_last(), bound);
        assert forall|i: int|
            0 <= i < cursors.len() && (#[trigger] cursors[i]) is Some implies min_cursor(
            cursors,
            bound,
        ) <= cursors[i]->0 by {
            if i < cursors.len() - 1 {
                assert(cursors.drop_last()[i] == cursors[i]);
            }
        }
    }
}

proof fn lemma_min_cursor_step(cursors: Seq<Option<nat>>, i: int, bound: nat)
    requires
        0 <= i < cursors.len(),
    ensures
        min_cursor(cursors.take(i + 1), bound) == match cursors[i] {
            Some(c) => if c < min_cursor(cursors.take(i), bound) {
                c
            } else {
                min_cursor(cursors.take(i), bound)
            },
            None => min_cursor(cursors.take(i), bound),
        },
        any_live(cursors.take(i + 1)) == (any_live(cursors.take(i)) || cursors[i] is Some),
{
    let t = cursors.take(i + 1);
    assert(t.drop_last() =~= cursors.take(i));
    assert(t.last() == cursors[i]);
    if any_live(cursors.take(i)) {
        let j = choose|j: int| 0 <= j < cursors.take(i).len() && (#[trigger] cursors.take(i)[j]) is Some;
        assert(t[j] == cursors.take(i)[j]);
    }
    if cursors[i] is Some {
        assert(t[i] is Some);
    }
    if any_live(t) {
        let j = choose|j: int| 0 <= j < t.len() && (#[trigger] t[j]) is Some;
        if j < i {
            assert(cursors.take(i)[j] == t[j]);
        }
    }
}

impl<T> MessageBus<T> {
    proof fn lemma_view_cursor(&self, s: nat)
        requires
            s < self.cursors@.len(),
        ensures
            self@.cursors[s as int] == cursor_view(self.cursors@[s as int]),
            self@.cursors.len() == self.cursors@.len(),
    {
    }

    /// An empty bus with no subscriptions.
    pub fn new() -> (bus: Self)
        ensures
            bus@ == BusModel::<T>::empty(),
    {
        let bus = MessageBus { messages: Vec::new(), cursors: Vec::new() };
        assert(bus@.cursors =~= Seq::<Option<nat>>::empty());
        bus
    }

    /// Whether `subscription` is a live handle on this bus.
    pub open spec fn owns(&self, subscription: &Subscription) -> bool {
        self@.live(subscription.id())
    }

    /// Opens a subscription that sees only the messages emitted from now on.
    pub fn subscribe(&mut self) -> (subscription: Subscription)
        ensures
            subscription.id() == old(self)@.cursors.len(),
            final(self)@ == old(self)@.subscribe(),
            final(self).owns(&subscription),
            final(self)@.unread(subscription.id()) == Seq::<T>::empty(),
    {
        let index = self.cursors.len();
        let count = self.messages.len();
        self.cursors.push(Some(count));
        assert(self@.cursors =~= old(self)@.cursors.push(Some(old(self)@.len())));
        Subscription { index }
    }

    /// Drops `subscription`: it no longer holds back [`MessageBus::garbage_collect`].
    pub fn unsubscribe(&mut self, subscription: Subscription)
        requires
            old(self).owns(&subscription),
        ensures
            final(self)@ == old(self)@.unsubscribe(subscription.id()),
    {
        self.cursors.set(subscription.index, None);
        assert(self@.cursors =~= old(self)@.cursors.update(subscription.id() as int, None));
    }

    /// Appends `message` to the queue.
    pub fn emit(&mut self, message: T)
        ensures
            final(self)@ == old(self)@.emit(message),
    {
        self.messages.push(message);
        assert(self@.messages =~= old(self)@.messages.push(message));
    }

    fn cursor_of(&self, subscription: &Subscription) -> (c: usize)
        requires
            self.owns(subscription),
        ensures
            c == self@.cursor(subscription.id()),
    {
        proof {
            self.lemma_view_cursor(subscription.id());
        }
        match self.cursors[subscription.index] {
            Some(c) => c,
            None => 0,
        }
    }

    fn set_cursor(&mut self, subscription: &Subscription, c: usize)
        requires
            old(self).owns(subscription),
        ensures
            final(self)@ == old(self)@.set_cursor(subscription.id(), c as nat),
    {
        self.cursors.set(subscription.index, Some(c));
        assert(self@.cursors =~= old(self)@.cursors.update(
            subscription.id() as int,
            Some(c as nat),
        ));
    }

    /// Number of messages `subscription` has not read yet; reads nothing.
    pub fn peek_count(&self, subscription: &Subscription) -> (n: usize)
        requires
            self.owns(subscription),
        ensures
            n == self@.unread(subscription.id()).len(),
    {
        let c = self.cursor_of(subscription);
        self.messages.len().saturating_sub(c)
    }

    /// Whether `subscription` has anything unread; reads nothing.
    pub fn peek_any(&self, subscription: &Subscription) -> (b: bool)
        requires
            self.owns(subscription),
        ensures
            b == (self@.unread(subscription.id()).len() > 0),
    {
        self.peek_count(subscription) > 0
    }

    /// Number of messages `subscription` had not read; they all count as read now.
    pub fn count(&mut self, subscription: &Subscription) -> (n: usize)
        requires
            old(self).owns(subscription),
        ensures
            n == old(self)@.unread(subscription.id()).len(),
            final(self)@ == old(self)@.mark_read(subscription.id()),
            final(self)@.unread(subscription.id()) == Seq::<T>::empty(),
    {
        let c = self.cursor_of(subscription);
        let available = self.messages.len();
        self.set_cursor(subscription, available);
        available.saturating_sub(c)
    }

    /// Whether `subscription` had anything unread; it all counts as read now.
    pub fn any(&mut self, subscription: &Subscription) -> (b: bool)
        requires
            old(self).owns(subscription),
        ensures
            b == (old(self)@.unread(subscription.id()).len() > 0),
            final(self)@ == old(self)@.mark_read(subscription.id()),
    {
        self.count(subscription) > 0
    }

    /// Drops the messages that every live subscription has read. Each live
    /// subscription keeps seeing exactly the messages it had not read.
    pub fn garbage_collect(&mut self)
        ensures
            final(self)@ == old(self)@.collect(),
    {
        let ghost old_cursors = old(self)@.cursors;
        let n = self.cursors.len();
        let len = self.messages.len();
        let mut live = false;
        let mut min: usize = len;
        let mut i: usize = 0;
        proof {
            assert(old_cursors.len() == n);
        }
        while i < n
            invariant
                n == self.cursors.len(),
                n == old_cursors.len(),
                old_cursors == old(self)@.cursors,
                len == self.messages.len(),
                self@ == old(self)@,
                0 <= i <= n,
                min as nat == min_cursor(old_cursors.take(i as int), len as nat),
                live == any_live(old_cursors.take(i as int)),
            decreases n - i,
        {
            let entry = self.cursors[i];
            proof {
                self.lemma_view_cursor(i as nat);
                lemma_min_cursor_step(old_cursors, i as int, len as nat);
                assert(entry == self.cursors@[i as int]);
                assert(old_cursors[i as int] == cursor_view(entry));
            }
            match entry {
                Some(c) => {
                    live = true;
                    if c < min {
                        min = c;
                    }
                },
                None => {},
            }
            i = i + 1;
        }
        proof {
            assert(old_cursors.take(n as int) =~= old_cursors);
        }
        if !live {
            self.messages.clear();
            assert(self@ =~= old(self)@.collect());
            return ;
        }
        proof {
            lemma_min_cursor_bounds(old_cursors, len as nat);
        }
        if min != 0 {
            let rest = self.messages.split_off(min);
            self.messages = rest;
            let mut j: usize = 0;
            while j < n
                invariant
                    n == self.cursors.len(),
                    n == old_cursors.len(),
                    old_cursors == old(self)@.cursors,
                    len == old(self)@.messages.len(),
                    0 <= j <= n,
                    self.messages@ == old(self)@.messages.subrange(min as int, len as int),
                    min as nat == min_cursor(old_cursors, len as nat),
                    forall|k: int|
                        0 <= k < old_cursors.len() && (#[trigger] old_cursors[k]) is Some
                            ==> min <= old_cursors[k]->0,
                    forall|k: int|
                        0 <= k < j ==> #[trigger] cursor_view(self.cursors@[k]) == match old_cursors[k] {
                            Some(v) => Some((v - min) as nat),
                            None => None::<nat>,
                        },
                    forall|k: int|
                        j <= k < n ==> #[trigger] cursor_view(self.cursors@[k]) == old_cursors[k],
                decreases n - j,
            {
                let c = self.cursors[j];
                assert(cursor_view(c) == old_cursors[j as int]);
                match c {
                    Some(v) => {
                        self.cursors.set(j, Some(v - min));
                    },
                    None => {},
                }
                j = j + 1;
            }
            assert(self@.cursors =~= old(self)@.collect().cursors);
            assert(self@ =~= old(self)@.collect());
        } else {
            assert(old(self)@.messages.subrange(0, len as int) =~= old(self)@.messages);
            assert(old(self)@.collect().cursors =~= old(self)@.cursors);
            assert(self@ =~= old(self)@.collect());
        }
    }
}

impl<T: Clone> MessageBus<T> {
    /// Reads the next unread message of `subscription`, if any, and advances past
    /// it. Called until it gives `None`, it reads the messages one by one, also
    /// those emitted between two calls.
    pub fn poll(&mut self, subscription: &Subscription) -> (message: Option<T>)
        requires
            old(self).owns(subscription),
        ensures
            old(self)@.unread(subscription.id()).len() == 0 ==> message is None && final(self)@
                == old(self)@,
            old(self)@.unread(subscription.id()).len() > 0 ==> {
                &&& message is Some
                &&& cloned(old(self)@.unread(subscription.id())[0], message->0)
                &&& final(self)@ == old(self)@.set_cursor(
                    subscription.id(),
                    old(self)@.cursor(subscription.id()) + 1,
                )
                &&& final(self)@.unread(subscription.id()) == old(self)@.unread(
                    subscription.id(),
                ).drop_first()
            },
    {
        let c = self.cursor_of(subscription);
        if c < self.messages.len() {
            let message = self.messages[c].clone();
            self.set_cursor(subscription, c + 1);
            assert(self@.unread(subscription.id()) =~= old(self)@.unread(
                subscription.id(),
            ).drop_first());
            Some(message)
        } else {
            None
        }
    }

    /// Reads every unread message of `subscription`, in order; they all count as
    /// read now. Messages emitted later are left for the next read.
    pub fn poll_all(&mut self, subscription: &Subscription) -> (messages: Vec<T>)
        requires
            old(self).owns(subscription),
        ensures
            messages@.len() == old(self)@.unread(subscription.id()).len(),
            forall|i: int|
                0 <= i < messages@.len() ==> cloned(
                    old(self)@.unread(subscription.id())[i],
                    #[trigger] messages@[i],
                ),
            final(self)@ == old(self)@.mark_read(subscription.id()),
    {
        let c = self.cursor_of(subscription);
        let len = self.messages.len();
        let mut out: Vec<T> = Vec::new();
        if c >= len {
            self.set_cursor(subscription, len);
            assert(old(self)@.unread(subscription.id()).len() == 0);
            return out;
        }
        let mut i = c;
        while i < len
            invariant
                len == self.messages.len(),
                self@ == old(self)@,
                c == old(self)@.cursor(subscription.id()),
                c <= i <= len,
                out@.len() == i - c,
                forall|k: int|
                    0 <= k < out@.len() ==> cloned(
                        self.messages@[c + k],
                        #[trigger] out@[k],
                    ),
            decreases len - i,
        {
            out.push(self.messages[i].clone());
            i = i + 1;
        }
        self.set_cursor(subscription, len);
        out
    }
}

impl<T> MessageBus<T> {
    /// Moves every cursor down as [`lowered`] says, after `k` messages from
    /// index `at` on were removed.
    fn lower_cursors(&mut self, at: usize, k: usize)
        ensures
            final(self)@.messages == old(self)@.messages,
            final(self)@.cursors == old(self)@.cursors.map_values(|o: Option<nat>| lowered(o, at as nat, k as nat)),
    {
        let ghost c0 = self.cursors@;
        let mut i: usize = 0;
        while i < self.cursors.len()
            invariant
                self.messages@ == old(self).messages@,
                self.cursors@.len() == c0.len(),
                c0 == old(self).cursors@,
                0 <= i <= c0.len(),
                forall|j: int| 0 <= j < i ==> cursor_view(#[trigger] self.cursors@[j]) == lowered(cursor_view(c0[j]), at as nat, k as nat),
                forall|j: int| i <= j < c0.len() ==> #[trigger] self.cursors@[j] == c0[j],
            decreases c0.len() - i,
        {
            match self.cursors[i] {
                Some(v) => {
                    if v > at {
                        if v - at >= k {
                            self.cursors.set(i, Some(v - k));
                        } else {
                            self.cursors.set(i, Some(at));
                        }
                    }
                },
                None => {},
            }
            i = i + 1;
        }
        assert(self@.cursors =~= old(self)@.cursors.map_values(|o: Option<nat>| lowered(o, at as nat, k as nat)));
    }
}

impl<T> MessageBus<T> {
    /// Removes and returns the next unread message of `subscription`, if any.
    /// The message leaves the queue for every subscription; the other cursors
    /// keep pointing at the same messages. Called until it gives `None`, it also
    /// takes the messages emitted between two calls.
    pub fn poll_consume(&mut self, subscription: &Subscription) -> (message: Option<T>)
        requires
            old(self).owns(subscription),
        ensures
            old(self)@.unread(subscription.id()).len() == 0 ==> message is None && final(self)@
                == old(self)@,
            old(self)@.unread(subscription.id()).len() > 0 ==> {
                &&& message == Some(old(self)@.unread(subscription.id())[0])
                &&& final(self)@ == old(self)@.consume_next(subscription.id())
                &&& final(self)@.unread(subscription.id()) == old(self)@.unread(
                    subscription.id(),
                ).drop_first()
            },
    {
        let c = self.cursor_of(subscription);
        if c < self.messages.len() {
            let message = self.messages.remove(c);
            self.lower_cursors(c, 1);
            proof {
                old(self).lemma_view_cursor(subscription.id());
                assert(self@.messages =~= old(self)@.consume_next(subscription.id()).messages);
                assert(self@.cursors =~= old(self)@.consume_next(subscription.id()).cursors);
                assert(self@.cursors[subscription.id() as int] == Some(c as nat));
            }
            assert(self@ =~= old(self)@.consume_next(subscription.id()));
            assert(self@.unread(subscription.id()) =~= old(self)@.unread(
                subscription.id(),
            ).drop_first());
            Some(message)
        } else {
            None
        }
    }

    /// Removes and returns every unread message of `subscription`, in order.
    pub fn poll_consume_all(&mut self, subscription: &Subscription) -> (messages: Vec<T>)
        requires
            old(self).owns(subscription),
        ensures
            messages@ == old(self)@.unread(subscription.id()),
            final(self)@ == old(self)@.consume_all(subscription.id()),
            final(self)@.unread(subscription.id()) == Seq::<T>::empty(),
    {
        let c = self.cursor_of(subscription);
        if c < self.messages.len() {
            let n = self.messages.len();
            let rest = self.messages.split_off(c);
            self.lower_cursors(c, n - c);
            proof {
                old(self).lemma_view_cursor(subscription.id());
                assert(self@.messages =~= old(self)@.consume_all(subscription.id()).messages);
                assert(self@.cursors =~= old(self)@.consume_all(subscription.id()).cursors);
                assert(self@.cursors[subscription.id() as int] == Some(c as nat));
            }
            assert(self@ =~= old(self)@.consume_all(subscription.id()));
            rest
        } else {
            Vec::new()
        }
    }
}

// ---------------------------------------------------------------------------
// Laws of the bus, stated over the model.

/// A subscription opened after some messages were emitted sees none of them.
pub proof fn law_new_subscription_sees_nothing<T>(bus: BusModel<T>)
    ensures
        bus.subscribe().live(bus.cursors.len()),
        bus.subscribe().unread(bus.cursors.len()) == Seq::<T>::empty(),
{
}

/// A live subscription that is not ahead of the queue sees every newly emitted
/// message, after the ones it had not read yet.
pub proof fn law_emit_is_seen<T>(bus: BusModel<T>, s: nat, message: T)
    requires
        bus.live(s),
        bus.cursor(s) <= bus.len(),
    ensures
        bus.emit(message).unread(s) == bus.unread(s).push(message),
        bus.emit(message).cursor(s) <= bus.emit(message).len(),
{
    assert(bus.emit(message).unread(s) =~= bus.unread(s).push(message));
}

/// Once read, a message is not seen again; other subscriptions are unaffected.
pub proof fn law_read_once<T>(bus: BusModel<T>, s: nat, t: nat)
    requires
        bus.live(s),
        bus.live(t),
        s != t,
    ensures
        bus.mark_read(s).unread(s) == Seq::<T>::empty(),
        bus.mark_read(s).unread(t) == bus.unread(t),
{
}

/// When a subscription consumes its unread messages, every other live
/// subscription that was not ahead of the queue still sees the next message
/// emitted, as the last of its unread ones.
pub proof fn law_consume_keeps_others_seeing<T>(bus: BusModel<T>, s: nat, t: nat, message: T)
    requires
        bus.live(s),
        bus.live(t),
        bus.cursor(t) <= bus.len(),
    ensures
        ({
            let after = bus.consume_all(s).emit(message);
            after.unread(t).len() > 0 && after.unread(t).last() == message
        }),
{
    let b1 = bus.consume_all(s);
    let after = b1.emit(message);
    if bus.cursor(s) < bus.len() {
        assert(b1.cursors[t as int] == lowered(bus.cursors[t as int], bus.cursor(s), (bus.len() - bus.cursor(s)) as nat));
    }
    assert(after.cursor(t) <= b1.len());
    assert(after.unread(t).last() == after.messages[after.len() - 1]);
}

/// Garbage collection changes nothing that a live subscription can observe.
pub proof fn law_collect_preserves_unread<T>(bus: BusModel<T>, s: nat)
    requires
        bus.live(s),
    ensures
        bus.collect().live(s),
        bus.collect().unread(s) == bus.unread(s),
        bus.collect().cursor(s) <= bus.collect().len() <==> bus.cursor(s) <= bus.len(),
{
    assert(any_live(bus.cursors)) by {
        assert(bus.cursors[s as int] is Some);
    }
    let k = min_cursor(bus.cursors, bus.len());
    lemma_min_cursor_bounds(bus.cursors, bus.len());
    assert(bus.cursors[s as int] is Some);
    let c = bus.cursor(s);
    assert(k <= c);
    assert(bus.collect().cursors[s as int] == Some((c - k) as nat));
    if c < bus.len() {
        assert(bus.collect().unread(s) =~= bus.unread(s));
    }
}

/// With every subscription dropped, garbage collection empties the queue.
pub proof fn law_collect_without_subscribers<T>(bus: BusModel<T>)
    requires
        forall|i: int| 0 <= i < bus.cursors.len() ==> (#[trigger] bus.cursors[i]) is None,
    ensures
        bus.collect().messages == Seq::<T>::empty(),
{
}

/// Collecting twice drops nothing more than collecting once, as long as a
/// subscription still has messages to read.
pub proof fn law_collect_idempotent_reads<T>(bus: BusModel<T>, s: nat)
    requires
        bus.live(s),
    ensures
        bus.collect().collect().unread(s) == bus.unread(s),
{
    law_collect_preserves_unread(bus, s);
    law_collect_preserves_unread(bus.collect(), s);
}

} // verus!
