//! The call/reply correlator: a synchronous-looking call surface over an
//! asynchronous, message-oriented transport.
//!
//! A connection owns the serial counter, the pending-call table, an outbox
//! of frames awaiting the transport, and an inbox of signals.  Inbound
//! frames are handed to [`Connection::deliver`], the single writer of the
//! tables; correlation is strictly by serial, and a serial is retired once
//! its call resolves.  The transport itself is outside this kernel: it
//! drains the outbox and feeds `deliver`.

use vstd::prelude::*;
use crate::Error;
use crate::message::{Message, MessageKind, body_signature_of, bytes_eq};
use crate::value::{Value, abs_seq, sig_of_seq};

verus! {

/// How a resolved call ended: a success body, or a bus error's name and
/// description.
pub enum CallOutcome {
    Replied(Vec<Value>),
    Failed(String, String),
}

/// A connection's correlator state.
pub struct Connection {
    /// Next serial to assign; serials start at 1 and grow.
    pub next_serial: u32,
    /// Serials of calls sent and not yet resolved.
    pub pending: Vec<u32>,
    /// Resolved calls not yet collected by their callers.
    pub resolved: Vec<(u32, CallOutcome)>,
    /// Frames awaiting the transport.
    pub outbox: Vec<Message>,
    /// Inbound signal frames awaiting the signal matcher.
    pub inbox: Vec<Message>,
    /// Frames the transport has delivered and no call has claimed yet:
    /// the synchronous call surface resolves against this queue.
    pub incoming: Vec<Message>,
}

/// Whether `s` occurs in `p`.
pub open spec fn has_serial(p: Seq<u32>, s: u32) -> bool {
    exists|i: int| 0 <= i < p.len() && p[i] == s
}

/// `p` with the first occurrence of `s` removed, and `p` itself when `s`
/// does not occur.
pub open spec fn drop_serial(p: Seq<u32>, s: u32) -> Seq<u32>
    decreases p.len(),
{
    if p.len() == 0 {
        p
    } else if p[0] == s {
        p.subrange(1, p.len() as int)
    } else {
        seq![p[0]] + drop_serial(p.subrange(1, p.len() as int), s)
    }
}

/// Dropping one serial keeps every other serial: timeout cancellation of
/// one call does not disturb the rest of the table.
pub proof fn lemma_drop_serial_keeps_others(p: Seq<u32>, s: u32, t: u32)
    requires
        t != s,
    ensures
        has_serial(drop_serial(p, s), t) == has_serial(p, t),
    decreases p.len(),
{
    if p.len() > 0 {
        let tail = p.subrange(1, p.len() as int);
        lemma_drop_serial_keeps_others(tail, s, t);
        if p[0] == s {
            if has_serial(tail, t) {
                let i = choose|i: int| 0 <= i < tail.len() && tail[i] == t;
                assert(p[i + 1] == t);
            }
            if has_serial(p, t) {
                let i = choose|i: int| 0 <= i < p.len() && p[i] == t;
                assert(tail[i - 1] == t);
            }
        } else {
            let d = seq![p[0]] + drop_serial(tail, s);
            if has_serial(p, t) {
                let i = choose|i: int| 0 <= i < p.len() && p[i] == t;
                if i == 0 {
                    assert(d[0] == t);
                } else {
                    assert(tail[i - 1] == t);
                    let j = choose|j: int|
                        0 <= j < drop_serial(tail, s).len() && drop_serial(tail, s)[j] == t;
                    assert(d[j + 1] == t);
                }
            }
            if has_serial(d, t) {
                let i = choose|i: int| 0 <= i < d.len() && d[i] == t;
                if i == 0 {
                    assert(p[0] == t);
                } else {
                    assert(drop_serial(tail, s)[i - 1] == t);
                    let j = choose|j: int| 0 <= j < tail.len() && tail[j] == t;
                    assert(p[j + 1] == t);
                }
            }
        }
    }
}

/// First index in the resolved table holding serial `s`, if any.
pub open spec fn find_outcome(r: Seq<(u32, CallOutcome)>, s: u32) -> Option<int> {
    if exists|i: int| 0 <= i < r.len() && r[i].0 == s {
        Some(choose|i: int| 0 <= i < r.len() && r[i].0 == s && forall|j: int| 0 <= j < i ==> r[j].0 != s)
    } else {
        None
    }
}


/// Whether a frame is a reply or error addressed to a pending call.
pub open spec fn resolves_call(m: Message) -> bool {
    (m.kind == MessageKind::Reply || m.kind == MessageKind::Error) && m.reply_serial is Some
}

/// Whether a frame answers the call with serial `s`.
pub open spec fn answers(m: Message, s: u32) -> bool {
    (m.kind == MessageKind::Reply || m.kind == MessageKind::Error) && m.reply_serial == Some(s)
}

/// First index in a delivery queue holding an answer to serial `s`.
pub open spec fn first_answer(q: Seq<Message>, s: u32) -> Option<int> {
    if exists|i: int| 0 <= i < q.len() && answers(q[i], s) {
        Some(
            choose|i: int|
                0 <= i < q.len() && answers(q[i], s) && forall|j: int|
                    0 <= j < i ==> !answers(q[j], s),
        )
    } else {
        None
    }
}

/// A `Some` from [`first_answer`] names a frame that answers the serial,
/// and nothing before it does.
pub proof fn lemma_first_answer_props(q: Seq<Message>, s: u32)
    requires
        first_answer(q, s) is Some,
    ensures
        0 <= first_answer(q, s)->0 < q.len(),
        answers(q[first_answer(q, s)->0], s),
        forall|j: int| 0 <= j < first_answer(q, s)->0 ==> !answers(q[j], s),
    decreases q.len(),
{
    assert(exists|i: int| 0 <= i < q.len() && answers(q[i], s));
    lemma_first_witness(q, s);
    let i = choose|i: int|
        0 <= i < q.len() && answers(q[i], s) && forall|j: int| 0 <= j < i ==> !answers(q[j], s);
}

/// Among the frames answering `s` there is a first one.
proof fn lemma_first_witness(q: Seq<Message>, s: u32)
    requires
        exists|i: int| 0 <= i < q.len() && answers(q[i], s),
    ensures
        exists|i: int|
            0 <= i < q.len() && answers(q[i], s) && forall|j: int| 0 <= j < i ==> !answers(q[j], s),
    decreases q.len(),
{
    if answers(q[0], s) {
        assert(0 <= 0 < q.len() && answers(q[0], s) && (forall|j: int|
            0 <= j < 0 ==> !answers(q[j], s)));
    } else {
        let tail = q.subrange(1, q.len() as int);
        let w = choose|i: int| 0 <= i < q.len() && answers(q[i], s);
        assert(w >= 1);
        assert(tail[w - 1] == q[w]);
        lemma_first_witness(tail, s);
        let it = choose|i: int|
            0 <= i < tail.len() && answers(tail[i], s) && forall|j: int|
                0 <= j < i ==> !answers(tail[j], s);
        assert(q[it + 1] == tail[it]);
        assert(0 <= it + 1 < q.len() && answers(q[it + 1], s) && (forall|j: int|
            0 <= j < it + 1 ==> !answers(q[j], s))) by {
            assert forall|j: int| 0 <= j < it + 1 implies !answers(q[j], s) by {
                if j >= 1 {
                    assert(tail[j - 1] == q[j]);
                }
            }
        }
    }
}

/// The bus error name a frame carries, or the empty name.
pub open spec fn error_name_of(m: Message) -> Seq<char> {
    match m.error_name {
        Some(n) => n@,
        None => Seq::<char>::empty(),
    }
}

/// The human-readable description of an error frame: its body's first
/// value when that is a string, else empty.
pub open spec fn error_description(m: Message) -> Seq<char> {
    if m.body@.len() >= 1 && m.body@[0]@ is Str {
        m.body@[0]@->Str_0
    } else {
        Seq::<char>::empty()
    }
}

/// The outcome a resolving frame records: a reply's body, or an error's
/// name and first-string description.
pub open spec fn outcome_matches(m: Message, o: CallOutcome) -> bool {
    match m.kind {
        MessageKind::Reply => o matches CallOutcome::Replied(b) && b == m.body,
        _ => o matches CallOutcome::Failed(n, d) && n@ == error_name_of(m) && d@
            == error_description(m),
    }
}

impl Connection {
    /// The correlator's invariant: pending serials are distinct and below
    /// the counter, as are resolved ones.
    pub open spec fn inv(&self) -> bool {
        &&& 1 <= self.next_serial
        &&& forall|i: int|
            0 <= i < self.pending@.len() ==> #[trigger] self.pending@[i] < self.next_serial
        &&& forall|i: int, j: int|
            0 <= i < j < self.pending@.len() ==> self.pending@[i] != self.pending@[j]
        &&& forall|i: int|
            0 <= i < self.resolved@.len() ==> (#[trigger] self.resolved@[i]).0 < self.next_serial
    }

    /// A fresh connection: no traffic yet, serials start at 1.
    pub fn new() -> (c: Connection)
        ensures
            c.inv(),
            c.next_serial == 1,
            c.pending@.len() == 0,
            c.resolved@.len() == 0,
            c.outbox@.len() == 0,
            c.inbox@.len() == 0,
            c.incoming@.len() == 0,
    {
        Connection {
            next_serial: 1,
            pending: Vec::new(),
            resolved: Vec::new(),
            outbox: Vec::new(),
            inbox: Vec::new(),
            incoming: Vec::new(),
        }
    }

    /// Serial numbers are still available.
    pub open spec fn has_serials(&self) -> bool {
        self.next_serial < 0xFFFFFFFF
    }

    /// Frames a call under the next serial, queues it for the transport,
    /// and registers the serial as pending.
    pub fn send_call(
        &mut self,
        destination: String,
        path: String,
        interface: String,
        member: String,
        body: Vec<Value>,
    ) -> (serial: u32)
        requires
            old(self).has_serials(),
        ensures
            old(self).inv() ==> final(self).inv(),
            serial == old(self).next_serial,
            final(self).next_serial == old(self).next_serial + 1,
            final(self).pending@ == old(self).pending@.push(serial),
            final(self).resolved@ == old(self).resolved@,
            final(self).inbox@ == old(self).inbox@,
            final(self).outbox@.len() == old(self).outbox@.len() + 1,
            final(self).outbox@.subrange(0, old(self).outbox@.len() as int) == old(self).outbox@,
            final(self).outbox@.last().kind == MessageKind::Call,
            final(self).outbox@.last().serial == serial,
            final(self).outbox@.last().destination == Some(destination),
            final(self).outbox@.last().path == Some(path),
            final(self).outbox@.last().interface == Some(interface),
            final(self).outbox@.last().member == Some(member),
            final(self).outbox@.last().body == body,
            final(self).incoming@ == old(self).incoming@,
            has_serial(final(self).pending@, serial),
    {
        let serial = self.next_serial;
        self.next_serial = self.next_serial + 1;
        let m = Message::method_call(serial, destination, path, interface, member, body);
        self.pending.push(serial);
        self.outbox.push(m);
        proof {
            assert(self.outbox@.subrange(0, old(self).outbox@.len() as int) =~= old(self).outbox@);
            assert(self.pending@.last() == serial);
        }
        serial
    }

    /// Whether `serial` is awaiting its reply.
    pub fn is_pending(&self, serial: u32) -> (r: bool)
        ensures
            r == has_serial(self.pending@, serial),
    {
        let mut i: usize = 0;
        while i < self.pending.len()
            invariant
                i <= self.pending@.len(),
                forall|k: int| 0 <= k < i ==> self.pending@[k] != serial,
            decreases self.pending@.len() - i,
        {
            if self.pending[i] == serial {
                return true;
            }
            i = i + 1;
        }
        false
    }

    /// Removes `serial` from the pending table, if present; every other
    /// pending call is untouched.  This is what a timeout does; the
    /// connection itself stays usable.
    pub fn cancel(&mut self, serial: u32)
        ensures
            old(self).inv() ==> final(self).inv(),
            final(self).pending@ == drop_serial(old(self).pending@, serial),
            old(self).inv() ==> !has_serial(final(self).pending@, serial),
            forall|t: u32| t != serial ==> has_serial(final(self).pending@, t) == has_serial(
                old(self).pending@,
                t,
            ),
            final(self).next_serial == old(self).next_serial,
            final(self).resolved@ == old(self).resolved@,
            final(self).outbox@ == old(self).outbox@,
            final(self).inbox@ == old(self).inbox@,
            final(self).incoming@ == old(self).incoming@,
    {
        let mut i: usize = 0;
        let n = self.pending.len();
        while i < n
            invariant
                i <= n == self.pending@.len(),
                self.next_serial == old(self).next_serial,
                self.resolved@ == old(self).resolved@,
                self.outbox@ == old(self).outbox@,
                self.inbox@ == old(self).inbox@,
                self.incoming@ == old(self).incoming@,
                self.pending@ == old(self).pending@,
                forall|k: int| 0 <= k < i ==> self.pending@[k] != serial,
            decreases n - i,
        {
            if self.pending[i] == serial {
                self.pending.remove(i);
                proof {
                    lemma_drop_serial_prefix(old(self).pending@, serial, i as int);
                    assert forall|t: u32| t != serial implies has_serial(self.pending@, t)
                        == has_serial(old(self).pending@, t) by {
                        lemma_drop_serial_keeps_others(old(self).pending@, serial, t);
                    }
                    if old(self).inv() {
                        lemma_drop_serial_gone(old(self).pending@, serial);
                    }
                }
                return ;
            }
            i = i + 1;
        }
        proof {
            lemma_drop_serial_absent(self.pending@, serial);
        }
    }

    /// Hands one inbound frame to the correlator.  A reply or error whose
    /// reply-serial matches a pending call retires that serial and records
    /// the outcome for its caller; a signal joins the inbox; anything else
    /// is dropped.
    pub fn deliver(&mut self, m: Message)
        ensures
            old(self).inv() ==> final(self).inv(),
            final(self).next_serial == old(self).next_serial,
            final(self).outbox@ == old(self).outbox@,
            final(self).incoming@ == old(self).incoming@,
            m.kind == MessageKind::Signal ==> final(self).inbox@ == old(self).inbox@.push(m)
                && final(self).pending@ == old(self).pending@
                && final(self).resolved@ == old(self).resolved@,
            m.kind != MessageKind::Signal ==> final(self).inbox@ == old(self).inbox@,
            resolves_call(m) && has_serial(old(self).pending@, m.reply_serial->0) ==> ({
                &&& final(self).pending@ == drop_serial(old(self).pending@, m.reply_serial->0)
                &&& final(self).resolved@.len() == old(self).resolved@.len() + 1
                &&& final(self).resolved@.subrange(0, old(self).resolved@.len() as int) == old(
                    self,
                ).resolved@
                &&& final(self).resolved@.last().0 == m.reply_serial->0
                &&& outcome_matches(m, final(self).resolved@.last().1)
            }),
            !(resolves_call(m) && has_serial(old(self).pending@, m.reply_serial->0)) ==> ({
                &&& final(self).pending@ == old(self).pending@
                &&& final(self).resolved@ == old(self).resolved@
            }),
    {
        match m.kind {
            MessageKind::Signal => {
                self.inbox.push(m);
            },
            MessageKind::Reply => {
                match m.reply_serial {
                    Some(rs) => {
                        if self.is_pending(rs) {
                            self.cancel(rs);
                            self.resolved.push((rs, CallOutcome::Replied(m.body)));
                            proof {
                                assert(self.resolved@.subrange(
                                    0,
                                    old(self).resolved@.len() as int,
                                ) =~= old(self).resolved@);
                            }
                        }
                    },
                    None => {},
                }
            },
            MessageKind::Error => {
                match m.reply_serial {
                    Some(rs) => {
                        if self.is_pending(rs) {
                            self.cancel(rs);
                            let name = match m.error_name {
                                Some(n) => n,
                                None => String::new(),
                            };
                            let description = match take_first_string(m.body) {
                                Some(d) => d,
                                None => String::new(),
                            };
                            self.resolved.push((rs, CallOutcome::Failed(name, description)));
                            proof {
                                assert(self.resolved@.subrange(
                                    0,
                                    old(self).resolved@.len() as int,
                                ) =~= old(self).resolved@);
                            }
                        }
                    },
                    None => {},
                }
            },
            MessageKind::Call => {},
        }
    }

    /// Collects the outcome recorded for `serial`, removing it; `None`
    /// while the call is still pending or unknown.
    pub fn take_reply(&mut self, serial: u32) -> (r: Option<CallOutcome>)
        ensures
            old(self).inv() ==> final(self).inv(),
            final(self).next_serial == old(self).next_serial,
            final(self).pending@ == old(self).pending@,
            final(self).outbox@ == old(self).outbox@,
            final(self).inbox@ == old(self).inbox@,
            final(self).incoming@ == old(self).incoming@,
            match find_outcome(old(self).resolved@, serial) {
                Some(i) => r is Some && r->0 == old(self).resolved@[i].1 && final(self).resolved@
                    == old(self).resolved@.remove(i),
                None => r is None && final(self).resolved@ == old(self).resolved@,
            },
    {
        let mut i: usize = 0;
        let n = self.resolved.len();
        while i < n
            invariant
                i <= n == self.resolved@.len(),
                self.next_serial == old(self).next_serial,
                self.pending@ == old(self).pending@,
                self.outbox@ == old(self).outbox@,
                self.inbox@ == old(self).inbox@,
                self.incoming@ == old(self).incoming@,
                self.resolved@ == old(self).resolved@,
                forall|k: int| 0 <= k < i ==> self.resolved@[k].0 != serial,
            decreases n - i,
        {
            if self.resolved[i].0 == serial {
                let entry = self.resolved.remove(i);
                proof {
                    let ghost r0 = old(self).resolved@;
                    assert(r0[i as int].0 == serial);
                    assert(find_outcome(r0, serial) == Some(i as int)) by {
                        assert(exists|k: int| 0 <= k < r0.len() && r0[k].0 == serial);
                        let w = choose|w: int|
                            0 <= w < r0.len() && r0[w].0 == serial && forall|j: int|
                                0 <= j < w ==> r0[j].0 != serial;
                        assert(!(w < i)) by {
                            if w < i {
                                assert(r0[w].0 != serial);
                            }
                        }
                        assert(!(w > i)) by {
                            if w > i {
                                assert(r0[i as int].0 != serial);
                            }
                        }
                    }
                }
                return Some(entry.1);
            }
            i = i + 1;
        }
        proof {
            let ghost r0 = old(self).resolved@;
            assert(find_outcome(r0, serial) is None) by {
                if exists|k: int| 0 <= k < r0.len() && r0[k].0 == serial {
                    let k = choose|k: int| 0 <= k < r0.len() && r0[k].0 == serial;
                    assert(r0[k].0 != serial);
                }
            }
        }
        None
    }

    /// Hands one frame received from the transport to the delivery queue,
    /// where a later call can claim it.
    pub fn receive(&mut self, m: Message)
        ensures
            old(self).inv() ==> final(self).inv(),
            final(self).incoming@ == old(self).incoming@.push(m),
            final(self).next_serial == old(self).next_serial,
            final(self).pending@ == old(self).pending@,
            final(self).resolved@ == old(self).resolved@,
            final(self).outbox@ == old(self).outbox@,
            final(self).inbox@ == old(self).inbox@,
    {
        self.incoming.push(m);
    }

    /// The synchronous call surface: frames and queues the call under the
    /// next serial, then resolves it against the frames the transport has
    /// delivered: the first reply or error bearing this call's serial
    /// decides it, and only that frame is consumed.  With no such frame
    /// the deadline is treated as elapsed: the pending entry is released
    /// and the call fails with `TimedOut`, leaving the connection and
    /// every other pending call untouched.
    pub fn call(
        &mut self,
        destination: String,
        path: String,
        interface: String,
        member: String,
        body: Vec<Value>,
        expected_reply_sig: &Vec<u8>,
    ) -> (r: Result<Vec<Value>, Error>)
        requires
            old(self).has_serials(),
        ensures
            old(self).inv() ==> final(self).inv(),
            final(self).next_serial == old(self).next_serial + 1,
            old(self).inv() ==> final(self).pending@ == old(self).pending@,
            final(self).resolved@ == old(self).resolved@,
            final(self).inbox@ == old(self).inbox@,
            final(self).outbox@.len() == old(self).outbox@.len() + 1,
            final(self).outbox@.subrange(0, old(self).outbox@.len() as int) == old(self).outbox@,
            final(self).outbox@.last().kind == MessageKind::Call,
            final(self).outbox@.last().serial == old(self).next_serial,
            final(self).outbox@.last().destination == Some(destination),
            final(self).outbox@.last().path == Some(path),
            final(self).outbox@.last().interface == Some(interface),
            final(self).outbox@.last().member == Some(member),
            final(self).outbox@.last().body == body,
            match first_answer(old(self).incoming@, old(self).next_serial) {
                None => r == Err::<Vec<Value>, Error>(Error::TimedOut) && final(self).incoming@
                    == old(self).incoming@,
                Some(i) => ({
                    let m = old(self).incoming@[i];
                    &&& final(self).incoming@ == old(self).incoming@.remove(i)
                    &&& (m.kind == MessageKind::Reply ==> (if sig_of_seq(abs_seq(m.body@))
                        == expected_reply_sig@ {
                        r == Ok::<Vec<Value>, Error>(m.body)
                    } else {
                        r == Err::<Vec<Value>, Error>(Error::TypeMismatch)
                    }))
                    &&& (m.kind == MessageKind::Error ==> (r matches Err(e) && e matches
                        Error::Bus(n, d) && n@ == error_name_of(m) && d@ == error_description(m)))
                }),
            },
    {
        let serial = self.send_call(destination, path, interface, member, body);
        let ghost q0 = self.incoming@;
        let ghost c1 = *self;
        let n = self.incoming.len();
        let mut i: usize = 0;
        while i < n
            invariant
                i <= n == self.incoming@.len(),
                *self == c1,
                q0 == self.incoming@,
                q0 == old(self).incoming@,
                serial == old(self).next_serial,
                old(self).has_serials(),
                c1.next_serial == old(self).next_serial + 1,
                c1.pending@ == old(self).pending@.push(serial),
                c1.resolved@ == old(self).resolved@,
                c1.inbox@ == old(self).inbox@,
                c1.outbox@.len() == old(self).outbox@.len() + 1,
                c1.outbox@.subrange(0, old(self).outbox@.len() as int) == old(self).outbox@,
                c1.outbox@.last().kind == MessageKind::Call,
                c1.outbox@.last().serial == serial,
                c1.outbox@.last().destination == Some(destination),
                c1.outbox@.last().path == Some(path),
                c1.outbox@.last().interface == Some(interface),
                c1.outbox@.last().member == Some(member),
                c1.outbox@.last().body == body,
                old(self).inv() ==> c1.inv(),
                forall|k: int| 0 <= k < i ==> !answers(q0[k], serial),
            decreases n - i,
        {
            let hit = (self.incoming[i].kind == MessageKind::Reply || self.incoming[i].kind
                == MessageKind::Error) && (match &self.incoming[i].reply_serial {
                Some(rs) => *rs == serial,
                None => false,
            });
            if hit {
                proof {
                    assert(answers(q0[i as int], serial));
                    assert(first_answer(q0, serial) == Some(i as int)) by {
                        assert(exists|k: int| 0 <= k < q0.len() && answers(q0[k], serial));
                        let w = choose|w: int|
                            0 <= w < q0.len() && answers(q0[w], serial) && forall|j: int|
                                0 <= j < w ==> !answers(q0[j], serial);
                        assert(!(w < i)) by {
                            if w < i {
                                assert(!answers(q0[w], serial));
                            }
                        }
                        assert(!(w > i)) by {
                            if w > i {
                                assert(!answers(q0[i as int], serial));
                            }
                        }
                    }
                }
                let m = self.incoming.remove(i);
                self.cancel(serial);
                proof {
                    if old(self).inv() {
                        assert forall|k: int|
                            0 <= k < old(self).pending@.len() implies old(self).pending@[k]
                            != serial by {}
                        lemma_drop_pushed(old(self).pending@, serial);
                    }
                }
                match m.kind {
                    MessageKind::Reply => {
                        let got = body_signature_of(&m.body);
                        if bytes_eq(&got, expected_reply_sig) {
                            return Ok(m.body);
                        } else {
                            return Err(Error::TypeMismatch);
                        }
                    },
                    MessageKind::Error => {
                        let name = match m.error_name {
                            Some(nn) => nn,
                            None => String::new(),
                        };
                        let description = match take_first_string(m.body) {
                            Some(dd) => dd,
                            None => String::new(),
                        };
                        return Err(Error::Bus(name, description));
                    },
                    _ => {
                        proof {
                            assert(false);
                        }
                        return Err(Error::TimedOut);
                    },
                }
            }
            i = i + 1;
        }
        proof {
            assert(first_answer(q0, serial) is None) by {
                if exists|k: int| 0 <= k < q0.len() && answers(q0[k], serial) {
                    let k = choose|k: int| 0 <= k < q0.len() && answers(q0[k], serial);
                    assert(!answers(q0[k], serial));
                }
            }
        }
        self.cancel(serial);
        proof {
            if old(self).inv() {
                assert forall|k: int|
                    0 <= k < old(self).pending@.len() implies old(self).pending@[k] != serial by {}
                lemma_drop_pushed(old(self).pending@, serial);
            }
        }
        Err(Error::TimedOut)
    }
}

/// Dropping a serial that sits only at the end leaves the rest.
proof fn lemma_drop_pushed(p: Seq<u32>, s: u32)
    requires
        forall|k: int| 0 <= k < p.len() ==> p[k] != s,
    ensures
        drop_serial(p.push(s), s) == p,
    decreases p.len(),
{
    let q = p.push(s);
    if p.len() == 0 {
        assert(q.subrange(1, q.len() as int) =~= p);
    } else {
        let ptail = p.subrange(1, p.len() as int);
        assert(q.subrange(1, q.len() as int) =~= ptail.push(s));
        lemma_drop_pushed(ptail, s);
        assert(q[0] == p[0]);
        assert(drop_serial(q, s) == seq![q[0]] + drop_serial(ptail.push(s), s));
        assert(seq![p[0]] + ptail =~= p);
    }
}

/// The first value of a body when it is a string, moved out; the exact
/// source of an error frame's description.
fn take_first_string(body: Vec<Value>) -> (r: Option<String>)
    ensures
        match r {
            Some(d) => body@.len() >= 1 && (body@[0]@ matches crate::value::AbsValue::Str(cs)
                && d@ == cs),
            None => !(body@.len() >= 1 && body@[0]@ is Str),
        },
{
    let mut body = body;
    if body.len() >= 1 {
        let ghost b0 = body@;
        let first = body.remove(0);
        proof {
            crate::value::lemma_view_shape(&first);
        }
        match first {
            Value::Str(s) => Some(s),
            _ => None,
        }
    } else {
        None
    }
}

/// Removing the matched entry at `i` is dropping the serial, when nothing
/// before `i` holds it.
proof fn lemma_drop_serial_prefix(p: Seq<u32>, s: u32, i: int)
    requires
        0 <= i < p.len(),
        p[i] == s,
        forall|k: int| 0 <= k < i ==> p[k] != s,
    ensures
        drop_serial(p, s) == p.remove(i),
    decreases i,
{
    if i == 0 {
        assert(drop_serial(p, s) == p.subrange(1, p.len() as int));
        assert(p.remove(0) =~= p.subrange(1, p.len() as int));
    } else {
        let tail = p.subrange(1, p.len() as int);
        assert(tail[i - 1] == s);
        lemma_drop_serial_prefix(tail, s, i - 1);
        assert(drop_serial(p, s) == seq![p[0]] + tail.remove(i - 1));
        assert(p.remove(i) =~= seq![p[0]] + tail.remove(i - 1));
    }
}

/// After the drop the serial is gone, given it occurred at most once.
proof fn lemma_drop_serial_gone(p: Seq<u32>, s: u32)
    requires
        forall|i: int, j: int| 0 <= i < j < p.len() ==> p[i] != p[j],
    ensures
        !has_serial(drop_serial(p, s), s),
    decreases p.len(),
{
    if p.len() > 0 {
        let tail = p.subrange(1, p.len() as int);
        if p[0] == s {
            if has_serial(tail, s) {
                let i = choose|i: int| 0 <= i < tail.len() && tail[i] == s;
                assert(p[i + 1] == s && p[0] == s);
            }
        } else {
            lemma_drop_serial_gone(tail, s);
            let d = seq![p[0]] + drop_serial(tail, s);
            if has_serial(d, s) {
                let i = choose|i: int| 0 <= i < d.len() && d[i] == s;
                assert(i > 0);
                assert(drop_serial(tail, s)[i - 1] == s);
            }
        }
    }
}

/// Dropping a serial that does not occur changes nothing.
proof fn lemma_drop_serial_absent(p: Seq<u32>, s: u32)
    requires
        forall|k: int| 0 <= k < p.len() ==> p[k] != s,
    ensures
        drop_serial(p, s) == p,
    decreases p.len(),
{
    if p.len() > 0 {
        let tail = p.subrange(1, p.len() as int);
        lemma_drop_serial_absent(tail, s);
        assert(drop_serial(p, s) == seq![p[0]] + tail);
        assert(seq![p[0]] + tail =~= p);
    }
}

/// Serial correlation: with two distinct pending serials, resolving one
/// retires only that serial; the other call still awaits its own reply,
/// whichever order the replies arrive in.
pub proof fn lemma_serial_isolation(p: Seq<u32>, s1: u32, s2: u32)
    requires
        s1 != s2,
        has_serial(p, s1),
        has_serial(p, s2),
    ensures
        has_serial(drop_serial(p, s1), s2),
        has_serial(drop_serial(p, s2), s1),
{
    lemma_drop_serial_keeps_others(p, s1, s2);
    lemma_drop_serial_keeps_others(p, s2, s1);
}

} // verus!
