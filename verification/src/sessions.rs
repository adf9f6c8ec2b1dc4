//! The connections that are being followed.
use vstd::prelude::*;

use crate::addr::{NetworkAddr, TcpAddr};
use crate::packet::TransportPacketParent;
use crate::tcp::{SessionView, TcpSession};

verus! {

/// Both ends of a connection.
pub type NetAddrPair<NetAddr> = (TcpAddr<NetAddr>, TcpAddr<NetAddr>);

/// A connection and its number as they are seen from outside.
#[verifier::ext_equal]
pub struct NumberedSessionView<NetAddr> {
    pub session: SessionView<NetAddr>,
    pub session_id: u64,
}

/// A connection and its number.
#[derive(Debug)]
pub struct TcpSessionWithId<NetAddr: NetworkAddr, RF: TransportPacketParent> {
    pub session: TcpSession<NetAddr, RF>,
    pub session_id: u64,
}

impl<NetAddr: NetworkAddr, RF: TransportPacketParent> TcpSessionWithId<NetAddr, RF> {
    pub open spec fn view(&self) -> NumberedSessionView<NetAddr> {
        NumberedSessionView { session: self.session@, session_id: self.session_id }
    }

    /// A connection of which nothing has been seen yet.
    pub fn new(session_id: u64) -> (r: Self)
        ensures
            r.session_id == session_id,
            r.session.wf(),
            r.session@.is_fresh(),
            call_ensures(NetAddr::default, (), r.session.src_net),
    {
        Self { session: TcpSession::default(), session_id }
    }
}

/// A connection under its two ends.
#[derive(Debug)]
pub struct SessionEntry<NetAddr: NetworkAddr, RF: TransportPacketParent> {
    pub key: NetAddrPair<NetAddr>,
    pub value: TcpSessionWithId<NetAddr, RF>,
}

/// The connections that are being followed. Each gets a number of its own.
#[derive(Debug)]
pub struct TcpSessionMap<NetAddr: NetworkAddr, RF: TransportPacketParent> {
    pub map: Vec<SessionEntry<NetAddr, RF>>,
    pub id_counter: u64,
}

impl<NetAddr: NetworkAddr, RF: TransportPacketParent> Default for TcpSessionMap<NetAddr, RF> {
    fn default() -> (r: Self)
        ensures
            r.wf(),
            r@ == Map::<NetAddrPair<NetAddr>, NumberedSessionView<NetAddr>>::empty(),
            r.id_counter == 0,
    {
        Self::new()
    }
}

impl<NetAddr: NetworkAddr, RF: TransportPacketParent> TcpSessionMap<NetAddr, RF> {
    /// Whether the connection is number `i` in the list.
    pub open spec fn holds_at(&self, i: int, key: NetAddrPair<NetAddr>) -> bool {
        0 <= i < self.map@.len() && self.map@[i].key == key
    }

    /// The connections by their ends.
    pub open spec fn view(&self) -> Map<NetAddrPair<NetAddr>, NumberedSessionView<NetAddr>> {
        Map::new(
            |key: NetAddrPair<NetAddr>| exists|i: int| #[trigger] self.holds_at(i, key),
            |key: NetAddrPair<NetAddr>|
                self.map@[choose|i: int| #[trigger] self.holds_at(i, key)].value@,
        )
    }

    /// No connection is listed twice.
    pub open spec fn keys_differ(&self) -> bool {
        forall|i: int, j: int|
            0 <= i < j < self.map@.len() ==> (#[trigger] self.map@[i]).key != (
            #[trigger] self.map@[j]).key
    }

    /// No connection is listed twice, and no number is used twice or was not given out yet.
    pub open spec fn wf(&self) -> bool {
        &&& self.keys_differ()
        &&& forall|i: int, j: int|
            0 <= i < j < self.map@.len() ==> (#[trigger] self.map@[i]).value.session_id != (
            #[trigger] self.map@[j]).value.session_id
        &&& forall|i: int|
            0 <= i < self.map@.len() ==> (#[trigger] self.map@[i]).value.session.wf()
                && self.map@[i].value.session_id < self.id_counter
    }

    /// What is listed is what there is.
    proof fn lemma_listed(&self, i: int)
        requires
            self.keys_differ(),
            0 <= i < self.map@.len(),
        ensures
            self@.contains_key(self.map@[i].key),
            self@[self.map@[i].key] == self.map@[i].value@,
    {
        let key = self.map@[i].key;
        assert(self.holds_at(i, key));
        let j = choose|j: int| #[trigger] self.holds_at(j, key);
        assert(self.holds_at(j, key));
        assert(i == j) by {
            if i < j {
                assert(self.map@[i].key != self.map@[j].key);
            } else if j < i {
                assert(self.map@[j].key != self.map@[i].key);
            }
        }
    }

    /// Setting the connection number `index`, which is listed in its place or last, sets it under
    /// its ends.
    proof fn lemma_set(before: Self, after: Self, index: int)
        requires
            before.keys_differ(),
            after.keys_differ(),
            0 <= index < after.map@.len(),
            index <= before.map@.len(),
            after.map@.len() == if index < before.map@.len() {
                before.map@.len()
            } else {
                before.map@.len() + 1
            },
            index < before.map@.len() ==> before.map@[index].key == after.map@[index].key,
            forall|i: int|
                0 <= i < before.map@.len() && i != index ==> #[trigger] after.map@[i]
                    == before.map@[i],
        ensures
            after@ == before@.insert(after.map@[index].key, after.map@[index].value@),
    {
        let key = after.map@[index].key;
        let expected = before@.insert(key, after.map@[index].value@);
        after.lemma_listed(index);
        assert forall|k: NetAddrPair<NetAddr>|
            (#[trigger] after@.contains_key(k) <==> expected.contains_key(k)) && (
            after@.contains_key(k) ==> after@[k] == expected[k]) by {
            if k != key {
                if after@.contains_key(k) {
                    let i = choose|i: int| #[trigger] after.holds_at(i, k);
                    assert(after.holds_at(i, k));
                    assert(after.map@[i] == before.map@[i]);
                    before.lemma_listed(i);
                    after.lemma_listed(i);
                }
                if before@.contains_key(k) {
                    let i = choose|i: int| #[trigger] before.holds_at(i, k);
                    assert(before.holds_at(i, k));
                    assert(after.map@[i] == before.map@[i]);
                    after.lemma_listed(i);
                }
            }
        }
        assert(after@ =~= expected);
    }

    /// Taking the connection number `index` out of the list takes it out.
    proof fn lemma_removed(before: Self, after: Self, index: int)
        requires
            before.keys_differ(),
            0 <= index < before.map@.len(),
            after.map@ == before.map@.remove(index),
        ensures
            after.keys_differ(),
            after@ == before@.remove(before.map@[index].key),
    {
        let key = before.map@[index].key;
        let expected = before@.remove(key);
        assert(after.keys_differ());
        assert forall|k: NetAddrPair<NetAddr>|
            (#[trigger] after@.contains_key(k) <==> expected.contains_key(k)) && (
            after@.contains_key(k) ==> after@[k] == expected[k]) by {
            if after@.contains_key(k) {
                let i = choose|i: int| #[trigger] after.holds_at(i, k);
                assert(after.holds_at(i, k));
                let j = if i < index { i } else { i + 1 };
                assert(after.map@[i] == before.map@[j]);
                before.lemma_listed(j);
                after.lemma_listed(i);
                if k == key {
                    before.lemma_listed(index);
                    assert(before.map@[index].key == before.map@[j].key);
                }
            }
            if expected.contains_key(k) {
                let j = choose|j: int| #[trigger] before.holds_at(j, k);
                assert(before.holds_at(j, k));
                let i = if j < index { j } else { j - 1 };
                assert(after.map@[i] == before.map@[j]);
                after.lemma_listed(i);
            }
        }
        assert(after@ =~= expected);
    }

    /// The directions of a connection that is followed can have come about.
    pub proof fn lemma_valid(&self, key: NetAddrPair<NetAddr>)
        requires
            self.wf(),
            self@.contains_key(key),
        ensures
            self@[key].session.client.valid(),
            self@[key].session.server.valid(),
    {
        let i = choose|i: int| #[trigger] self.holds_at(i, key);
        assert(self.holds_at(i, key));
        self.lemma_listed(i);
        let session = self.map@[i].value.session;
        assert(session.wf());
        session.src_tracker.lemma_valid();
        session.dst_tracker.lemma_valid();
    }

    pub fn new() -> (r: Self)
        ensures
            r.wf(),
            r@ == Map::<NetAddrPair<NetAddr>, NumberedSessionView<NetAddr>>::empty(),
            r.id_counter == 0,
    {
        let r: Self = Self { map: Vec::new(), id_counter: 0 };
        assert(r@ =~= Map::<NetAddrPair<NetAddr>, NumberedSessionView<NetAddr>>::empty()) by {
            assert forall|key: NetAddrPair<NetAddr>| !r@.contains_key(key) by {
                if r@.contains_key(key) {
                    let i = choose|i: int| #[trigger] r.holds_at(i, key);
                    assert(r.holds_at(i, key));
                }
            }
        }
        r
    }

    /// Where the connection is listed, if it is.
    fn find(&self, src_addr: TcpAddr<NetAddr>, dst_addr: TcpAddr<NetAddr>) -> (r: (
        NetAddrPair<NetAddr>,
        Option<usize>,
    ))
        requires
            self.wf(),
        ensures
            r.0 == crate::addr::session_key(src_addr, dst_addr),
            self@.contains_key(r.0) <==> r.1 is Some,
            r.1 matches Some(i) ==> self.holds_at(i as int, r.0) && self@[r.0]
                == self.map@[i as int].value@,
    {
        // Sort them
        let key = if src_addr.is_before(&dst_addr) {
            (src_addr, dst_addr)
        } else {
            (dst_addr, src_addr)
        };
        let mut i: usize = 0;
        while i < self.map.len()
            invariant
                self.wf(),
                i <= self.map@.len(),
                key == crate::addr::session_key(src_addr, dst_addr),
                forall|j: int| 0 <= j < i ==> (#[trigger] self.map@[j]).key != key,
            decreases self.map@.len() - i,
        {
            let entry = &self.map[i];
            if entry.key.0.same(&key.0) && entry.key.1.same(&key.1) {
                proof {
                    self.lemma_listed(i as int);
                }
                return (key, Some(i));
            }
            i = i + 1;
        }
        proof {
            if self@.contains_key(key) {
                let j = choose|j: int| #[trigger] self.holds_at(j, key);
                assert(self.holds_at(j, key));
                assert(self.map@[j].key != key);
            }
        }
        (key, None)
    }

    /// The session of a connection, in whichever direction it is named. One that is not followed
    /// yet gets the next number.
    pub fn get_session(&mut self, src_addr: TcpAddr<NetAddr>, dst_addr: TcpAddr<NetAddr>) -> (r:
        &mut TcpSessionWithId<NetAddr, RF>)
        requires
            old(self).wf(),
            old(self)@.contains_key(crate::addr::session_key(src_addr, dst_addr))
                || old(self).id_counter < u64::MAX,
        ensures
            ({
                let key = crate::addr::session_key(src_addr, dst_addr);
                &&& final(self)@ == old(self)@.insert(key, final(r)@)
                &&& old(self)@.contains_key(key) ==> r@ == old(self)@[key]
                    && final(self).id_counter == old(self).id_counter
                &&& !old(self)@.contains_key(key) ==> {
                    &&& r.session_id == old(self).id_counter
                    &&& r.session@.is_fresh()
                    &&& call_ensures(NetAddr::default, (), r.session.src_net)
                    &&& final(self).id_counter == old(self).id_counter + 1
                }
            }),
            r.session.wf(),
            final(r).session.wf() && final(r).session_id == r.session_id ==> final(self).wf(),
    {
        let ghost before = *self;
        let ghost after = *final(self);
        let (key, found) = self.find(src_addr, dst_addr);
        let index: usize = match found {
            Some(i) => i,
            None => {
                let session_id: u64 = self.id_counter;
                self.id_counter = self.id_counter + 1;
                self.map.push(SessionEntry { key, value: TcpSessionWithId::new(session_id) });
                self.map.len() - 1
            },
        };
        let ghost middle = *self;
        let r = &mut self.map[index].value;
        proof {
            assert(after.map@ == middle.map@.update(
                index as int,
                SessionEntry { key, value: *final(r) },
            ));
            assert forall|i: int| 0 <= i < before.map@.len() implies #[trigger] middle.map@[i]
                == before.map@[i] by {}
            if found is None {
                assert forall|i: int| 0 <= i < before.map@.len() implies (
                #[trigger] before.map@[i]).key != key by {
                    before.lemma_listed(i);
                }
            }
            Self::lemma_set(before, after, index as int);
        }
        r
    }

    /// Takes a connection out, in whichever direction it is named.
    pub fn remove_session(&mut self, src_addr: TcpAddr<NetAddr>, dst_addr: TcpAddr<NetAddr>) -> (r:
        Option<TcpSessionWithId<NetAddr, RF>>)
        requires
            old(self).wf(),
        ensures
            final(self).wf(),
            final(self).id_counter == old(self).id_counter,
            ({
                let key = crate::addr::session_key(src_addr, dst_addr);
                &&& final(self)@ == old(self)@.remove(key)
                &&& r is Some <==> old(self)@.contains_key(key)
                &&& r matches Some(session) ==> session@ == old(self)@[key] && session.session.wf()
            }),
    {
        let ghost before = *self;
        let (key, found) = self.find(src_addr, dst_addr);
        match found {
            Some(i) => {
                let entry = self.map.remove(i);
                proof {
                    Self::lemma_removed(before, *self, i as int);
                    let list = before.map@;
                    assert forall|j: int| 0 <= j < self.map@.len() implies #[trigger] self.map@[j]
                        == list[if j < i { j } else { j + 1 }] by {}
                }
                Some(entry.value)
            },
            None => {
                assert(self@ =~= before@.remove(key));
                None
            },
        }
    }
}

/// Two connections that are followed have different numbers, and a new one gets a number that none
/// has had before.
pub proof fn law_session_ids_differ<NetAddr: NetworkAddr, RF: TransportPacketParent>(
    sessions: TcpSessionMap<NetAddr, RF>,
    a: NetAddrPair<NetAddr>,
    b: NetAddrPair<NetAddr>,
)
    requires
        sessions.wf(),
        sessions@.contains_key(a),
        sessions@.contains_key(b),
    ensures
        sessions@[a].session_id == sessions@[b].session_id <==> a == b,
        sessions@[a].session_id < sessions.id_counter,
{
    let i = choose|i: int| #[trigger] sessions.holds_at(i, a);
    let j = choose|j: int| #[trigger] sessions.holds_at(j, b);
    assert(sessions.holds_at(i, a) && sessions.holds_at(j, b));
    sessions.lemma_listed(i);
    sessions.lemma_listed(j);
    assert(sessions.map@[i].value.session_id < sessions.id_counter);
    if a != b {
        if i < j {
            assert(sessions.map@[i].value.session_id != sessions.map@[j].value.session_id);
        } else {
            assert(sessions.map@[j].value.session_id != sessions.map@[i].value.session_id);
        }
    }
}

} // verus!
