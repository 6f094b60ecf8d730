//! Peer-connection bookkeeping: the status map a connection monitor keeps
//! while it listens to peer events.  The network subscription and the timer
//! loop live outside the library; they hand plain peer identifiers and
//! events in and read statuses and counts back.

use vstd::prelude::*;

verus! {

/// Whether a peer is currently connected.
#[derive(Eq, PartialEq, Clone, Debug, Structural)]
pub enum ConnectionStatus {
    Connected,
    Disconnected,
}

/// A peer-connectivity event, as the network layer reports it.
#[derive(Eq, PartialEq, Clone, Copy, Debug, Structural)]
pub enum PeerEvent {
    /// The peer with this identifier connected.
    NewPeer(u64),
    /// The peer with this identifier disconnected.
    LostPeer(u64),
}

/// The status a peer event assigns.
pub open spec fn status_of_event(e: PeerEvent) -> ConnectionStatus {
    match e {
        PeerEvent::NewPeer(_) => ConnectionStatus::Connected,
        PeerEvent::LostPeer(_) => ConnectionStatus::Disconnected,
    }
}

/// The peer a peer event concerns.
pub open spec fn peer_of_event(e: PeerEvent) -> u64 {
    match e {
        PeerEvent::NewPeer(p) => p,
        PeerEvent::LostPeer(p) => p,
    }
}

/// The status recorded for `peer`, if any: the entry with its key.
pub open spec fn status_of(s: Seq<(u64, ConnectionStatus)>, peer: u64) -> Option<ConnectionStatus>
    decreases s.len(),
{
    if s.len() == 0 {
        None
    } else if s[0].0 == peer {
        Some(s[0].1)
    } else {
        status_of(s.drop_first(), peer)
    }
}

/// How many entries are `Connected`.
pub open spec fn connected_count_of(s: Seq<(u64, ConnectionStatus)>) -> int
    decreases s.len(),
{
    if s.len() == 0 {
        0
    } else {
        connected_count_of(s.drop_last()) + if s.last().1 == ConnectionStatus::Connected {
            1int
        } else {
            0int
        }
    }
}

/// The statuses of the peers seen so far, keyed by peer identifier.
#[derive(Clone, Debug)]
pub struct ConnectionTracker {
    pub statuses: Vec<(u64, ConnectionStatus)>,
}

impl ConnectionTracker {
    /// Each peer has at most one entry.
    pub open spec fn wf(self) -> bool {
        forall|i: int, j: int|
            0 <= i < j < self.statuses@.len() ==> (#[trigger] self.statuses@[i]).0
                != (#[trigger] self.statuses@[j]).0
    }

    /// An empty tracker: no peer has a status yet.
    pub fn new() -> (t: ConnectionTracker)
        ensures
            t.wf(),
            t.statuses@.len() == 0,
    {
        ConnectionTracker { statuses: Vec::new() }
    }

    /// The recorded status of `peer`, if it was ever seen.
    pub fn status(&self, peer: u64) -> (r: Option<ConnectionStatus>)
        ensures
            r == status_of(self.statuses@, peer),
    {
        let n = self.statuses.len();
        proof {
            assert(self.statuses@.subrange(0, n as int) =~= self.statuses@);
        }
        for i in 0..n
            invariant
                n == self.statuses@.len(),
                forall|j: int| 0 <= j < i ==> (#[trigger] self.statuses@[j]).0 != peer,
                status_of(self.statuses@, peer) == status_of(
                    self.statuses@.subrange(i as int, n as int),
                    peer,
                ),
        {
            proof {
                assert(self.statuses@.subrange(i as int, n as int)[0] == self.statuses@[i as int]);
                assert(self.statuses@.subrange(i as int, n as int).drop_first()
                    =~= self.statuses@.subrange(i + 1, n as int));
            }
            let (p, st) = &self.statuses[i];
            if *p == peer {
                let r = match st {
                    ConnectionStatus::Connected => ConnectionStatus::Connected,
                    ConnectionStatus::Disconnected => ConnectionStatus::Disconnected,
                };
                return Some(r);
            }
        }
        proof {
            assert(self.statuses@.subrange(n as int, n as int) =~= Seq::<(
                u64,
                ConnectionStatus,
            )>::empty());
        }
        None
    }

    /// Record a peer event: the peer's status becomes what the event says;
    /// every other peer's status is untouched.
    pub fn handle_peer_event(&mut self, e: PeerEvent)
        requires
            old(self).wf(),
        ensures
            final(self).wf(),
            status_of(final(self).statuses@, peer_of_event(e)) == Some(status_of_event(e)),
            forall|q: u64|
                q != peer_of_event(e) ==> #[trigger] status_of(final(self).statuses@, q)
                    == status_of(old(self).statuses@, q),
    {
        let peer = match e {
            PeerEvent::NewPeer(p) => p,
            PeerEvent::LostPeer(p) => p,
        };
        let status = match e {
            PeerEvent::NewPeer(_) => ConnectionStatus::Connected,
            PeerEvent::LostPeer(_) => ConnectionStatus::Disconnected,
        };
        self.set_status(peer, status);
    }

    /// Set one peer's status, inserting the peer if it is new.
    fn set_status(&mut self, peer: u64, status: ConnectionStatus)
        requires
            old(self).wf(),
        ensures
            final(self).wf(),
            status_of(final(self).statuses@, peer) == Some(status),
            forall|q: u64|
                q != peer ==> #[trigger] status_of(final(self).statuses@, q) == status_of(
                    old(self).statuses@,
                    q,
                ),
    {
        let ghost pre = self.statuses@;
        let n = self.statuses.len();
        for i in 0..n
            invariant
                n == self.statuses@.len(),
                pre == self.statuses@,
                pre == old(self).statuses@,
                self.wf(),
                forall|j: int| 0 <= j < i ==> (#[trigger] self.statuses@[j]).0 != peer,
        {
            let (p, _) = &self.statuses[i];
            if *p == peer {
                let st2 = match status {
                    ConnectionStatus::Connected => ConnectionStatus::Connected,
                    ConnectionStatus::Disconnected => ConnectionStatus::Disconnected,
                };
                self.statuses[i] = (peer, st2);
                proof {
                    assert(self.statuses@ =~= pre.update(i as int, (peer, status)));
                    lemma_status_of_update(pre, i as int, peer, status);
                    assert(forall|j: int|
                        0 <= j < self.statuses@.len() ==> (#[trigger] self.statuses@[j]).0
                            == pre[j].0);
                }
                return ;
            }
        }
        self.statuses.push((peer, status));
        proof {
            assert(self.statuses@ =~= pre.push((peer, status)));
            lemma_status_of_push_new(pre, peer, status);
        }
    }

    /// How many peers are currently connected.
    pub fn connected_count(&self) -> (r: usize)
        ensures
            r == connected_count_of(self.statuses@),
    {
        let n = self.statuses.len();
        let mut r: usize = 0;
        for i in 0..n
            invariant
                n == self.statuses@.len(),
                r == connected_count_of(self.statuses@.take(i as int)),
                r <= i,
        {
            proof {
                assert(self.statuses@.take(i + 1).drop_last() =~= self.statuses@.take(i as int));
                assert(self.statuses@.take(i + 1).last() == self.statuses@[i as int]);
            }
            let (_, st) = &self.statuses[i];
            if *st == ConnectionStatus::Connected {
                r = r + 1;
            }
        }
        proof {
            assert(self.statuses@.take(n as int) =~= self.statuses@);
        }
        r
    }
}

/// The status a metrics gauge reports for a peer: 1 when connected, 0 when
/// not.
pub fn status_as_int(status: &ConnectionStatus) -> (r: u64)
    ensures
        r == 1 <==> status == ConnectionStatus::Connected,
        r == 0 <==> status == ConnectionStatus::Disconnected,
{
    match status {
        ConnectionStatus::Connected => 1,
        ConnectionStatus::Disconnected => 0,
    }
}

/// Updating the entry at a key's index changes that key's status and no
/// other's.
proof fn lemma_status_of_update(
    s: Seq<(u64, ConnectionStatus)>,
    i: int,
    peer: u64,
    status: ConnectionStatus,
)
    requires
        0 <= i < s.len(),
        s[i].0 == peer,
        forall|j: int| 0 <= j < i ==> (#[trigger] s[j]).0 != peer,
    ensures
        status_of(s.update(i, (peer, status)), peer) == Some(status),
        forall|q: u64|
            q != peer ==> #[trigger] status_of(s.update(i, (peer, status)), q) == status_of(s, q),
    decreases s.len(),
{
    let u = s.update(i, (peer, status));
    if i == 0 {
        assert(u[0] == (peer, status));
        assert forall|q: u64| q != peer implies #[trigger] status_of(u, q) == status_of(s, q) by {
            assert(u.drop_first() =~= s.drop_first());
            assert(status_of(u, q) == status_of(u.drop_first(), q));
            assert(status_of(s, q) == status_of(s.drop_first(), q));
        }
    } else {
        lemma_status_of_update(s.drop_first(), i - 1, peer, status);
        assert(u.drop_first() =~= s.drop_first().update(i - 1, (peer, status)));
        assert(u[0] == s[0]);
        assert(s[0].0 != peer);
        assert forall|q: u64| q != peer implies #[trigger] status_of(u, q) == status_of(s, q) by {
            if u[0].0 == q {
                assert(status_of(u, q) == Some(u[0].1));
                assert(status_of(s, q) == Some(s[0].1));
            } else {
                assert(status_of(u, q) == status_of(u.drop_first(), q));
                assert(status_of(s, q) == status_of(s.drop_first(), q));
                assert(status_of(s.drop_first().update(i - 1, (peer, status)), q) == status_of(
                    s.drop_first(),
                    q,
                ));
            }
        }
    }
}

/// Appending a fresh key gives it a status and leaves every other key's
/// status alone.
proof fn lemma_status_of_push_new(
    s: Seq<(u64, ConnectionStatus)>,
    peer: u64,
    status: ConnectionStatus,
)
    requires
        forall|j: int| 0 <= j < s.len() ==> (#[trigger] s[j]).0 != peer,
    ensures
        status_of(s.push((peer, status)), peer) == Some(status),
        forall|q: u64|
            q != peer ==> #[trigger] status_of(s.push((peer, status)), q) == status_of(s, q),
    decreases s.len(),
{
    let u = s.push((peer, status));
    if s.len() == 0 {
        assert(u[0] == (peer, status));
        assert forall|q: u64| q != peer implies #[trigger] status_of(u, q) == status_of(s, q) by {
            assert(u.drop_first() =~= Seq::<(u64, ConnectionStatus)>::empty());
            assert(status_of(u, q) == status_of(u.drop_first(), q));
            assert(status_of(u.drop_first(), q) is None);
            assert(status_of(s, q) is None);
        }
    } else {
        lemma_status_of_push_new(s.drop_first(), peer, status);
        assert(u.drop_first() =~= s.drop_first().push((peer, status)));
        assert(u[0] == s[0]);
        assert forall|q: u64| q != peer implies #[trigger] status_of(u, q) == status_of(s, q) by {
            if u[0].0 == q {
                assert(status_of(u, q) == Some(u[0].1));
                assert(status_of(s, q) == Some(s[0].1));
            } else {
                assert(status_of(u, q) == status_of(u.drop_first(), q));
                assert(status_of(s, q) == status_of(s.drop_first(), q));
                assert(status_of(s.drop_first().push((peer, status)), q) == status_of(
                    s.drop_first(),
                    q,
                ));
            }
        }
    }
}

} // verus!
