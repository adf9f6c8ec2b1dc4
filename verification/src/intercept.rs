//! What to do next with a queue of packets.
use vstd::prelude::*;

use crate::packet::{InterceptVerdict, SnarfInterceptVerdict};

verus! {

/// The packet that a verdict sends on its way, and whether it is accepted. There is none while a
/// packet is held back.
pub open spec fn to_send<RF>(verdict: SnarfInterceptVerdict<RF>) -> Option<(RF, InterceptVerdict)> {
    match verdict {
        SnarfInterceptVerdict::Accept(rf) => Some((rf, InterceptVerdict::Accept)),
        SnarfInterceptVerdict::Drop(rf) => Some((rf, InterceptVerdict::Drop)),
        SnarfInterceptVerdict::Keep => None,
    }
}

/// The packet that a verdict sends on its way, and whether it is accepted. There is none while a
/// packet is held back.
pub fn verdict_to_send<RF>(verdict: SnarfInterceptVerdict<RF>) -> (r: Option<
    (RF, InterceptVerdict),
>)
    ensures
        r == to_send(verdict),
        match verdict {
            SnarfInterceptVerdict::Accept(rf) => r == Some((rf, InterceptVerdict::Accept)),
            SnarfInterceptVerdict::Drop(rf) => r == Some((rf, InterceptVerdict::Drop)),
            SnarfInterceptVerdict::Keep => r is None,
        },
{
    match verdict {
        SnarfInterceptVerdict::Accept(rf) => Some((rf, InterceptVerdict::Accept)),
        SnarfInterceptVerdict::Drop(rf) => Some((rf, InterceptVerdict::Drop)),
        SnarfInterceptVerdict::Keep => None,
    }
}

/// The packets that verdicts send on their way, in their order.
pub open spec fn all_to_send<RF>(verdicts: Seq<SnarfInterceptVerdict<RF>>) -> Seq<
    (RF, InterceptVerdict),
>
    decreases verdicts.len(),
{
    if verdicts.len() == 0 {
        seq![]
    } else {
        match to_send(verdicts[0]) {
            Some(sent) => seq![sent] + all_to_send(verdicts.skip(1)),
            None => all_to_send(verdicts.skip(1)),
        }
    }
}

/// More verdicts send more packets, behind the others.
pub proof fn lemma_all_to_send_join<RF>(
    first: Seq<SnarfInterceptVerdict<RF>>,
    second: Seq<SnarfInterceptVerdict<RF>>,
)
    ensures
        all_to_send(first + second) == all_to_send(first) + all_to_send(second),
    decreases first.len(),
{
    let both = first + second;
    if first.len() == 0 {
        assert(both =~= second);
        assert(all_to_send(first) + all_to_send(second) =~= all_to_send(second));
    } else {
        assert(both.skip(1) =~= first.skip(1) + second);
        lemma_all_to_send_join(first.skip(1), second);
        assert(all_to_send(both) =~= all_to_send(first) + all_to_send(second));
    }
}

/// What is to be done next.
#[derive(Debug)]
pub enum InterceptAction<RF> {
    /// Leave off.
    Stop,
    /// Wait for a packet, and hand it to the handler.
    Receive,
    /// Send a packet on its way, or drop it.
    Send(RF, InterceptVerdict),
}

/// Where the work on a queue stands: the verdicts that have not been carried out yet.
pub struct InterceptLoop<RF> {
    pub verdicts: Vec<SnarfInterceptVerdict<RF>>,
}

impl<RF> InterceptLoop<RF> {
    /// The packets that are to be sent on their way.
    pub open spec fn view(&self) -> Seq<(RF, InterceptVerdict)> {
        all_to_send(self.verdicts@)
    }

    pub fn new() -> (r: Self)
        ensures
            r@ == Seq::<(RF, InterceptVerdict)>::empty(),
    {
        Self { verdicts: Vec::new() }
    }

    /// Takes up what the handler has decided.
    pub fn decided(&mut self, verdicts: Vec<SnarfInterceptVerdict<RF>>)
        ensures
            final(self)@ == old(self)@ + all_to_send(verdicts@),
    {
        let mut verdicts = verdicts;
        proof {
            lemma_all_to_send_join(self.verdicts@, verdicts@);
        }
        self.verdicts.append(&mut verdicts);
    }

    /// What is to be done next: packets that have been decided about are sent first, in the order
    /// of the verdicts; then another is waited for, unless it is time to leave off.
    pub fn next(&mut self, running: bool) -> (r: InterceptAction<RF>)
        ensures
            old(self)@.len() > 0 ==> r == InterceptAction::Send(old(self)@[0].0, old(self)@[0].1)
                && final(self)@ == old(self)@.skip(1),
            old(self)@.len() == 0 ==> final(self)@ == old(self)@ && r == if running {
                InterceptAction::<RF>::Receive
            } else {
                InterceptAction::<RF>::Stop
            },
    {
        while self.verdicts.len() > 0
            invariant
                self@ == old(self)@,
            decreases self.verdicts@.len(),
        {
            let ghost verdicts = self.verdicts@;
            let verdict = self.verdicts.remove(0);
            assert(self.verdicts@ =~= verdicts.skip(1));
            if let Some((rf, verdict)) = verdict_to_send(verdict) {
                assert(old(self)@.skip(1) =~= self@);
                return InterceptAction::Send(rf, verdict);
            }
        }
        if running {
            InterceptAction::Receive
        } else {
            InterceptAction::Stop
        }
    }
}

/// Verdicts that let no packet go send nothing; an accepted or dropped packet is sent as just that,
/// behind those that were decided about before.
pub proof fn law_decided_packets_are_sent<RF>(verdicts: Seq<SnarfInterceptVerdict<RF>>, rf: RF)
    ensures
        all_to_send(Seq::<SnarfInterceptVerdict<RF>>::empty()).len() == 0,
        all_to_send(verdicts.push(SnarfInterceptVerdict::Keep)) == all_to_send(verdicts),
        all_to_send(verdicts.push(SnarfInterceptVerdict::Accept(rf))) == all_to_send(verdicts).push(
            (rf, InterceptVerdict::Accept),
        ),
        all_to_send(verdicts.push(SnarfInterceptVerdict::Drop(rf))) == all_to_send(verdicts).push(
            (rf, InterceptVerdict::Drop),
        ),
{
    let keep = seq![SnarfInterceptVerdict::<RF>::Keep];
    let accept = seq![SnarfInterceptVerdict::Accept(rf)];
    let drop = seq![SnarfInterceptVerdict::Drop(rf)];
    assert(verdicts.push(SnarfInterceptVerdict::Keep) =~= verdicts + keep);
    assert(verdicts.push(SnarfInterceptVerdict::Accept(rf)) =~= verdicts + accept);
    assert(verdicts.push(SnarfInterceptVerdict::Drop(rf)) =~= verdicts + drop);
    lemma_all_to_send_join(verdicts, keep);
    lemma_all_to_send_join(verdicts, accept);
    lemma_all_to_send_join(verdicts, drop);
    let none = Seq::<SnarfInterceptVerdict<RF>>::empty();
    assert(all_to_send(none).len() == 0);
    assert(keep.skip(1) =~= none);
    assert(accept.skip(1) =~= none);
    assert(drop.skip(1) =~= none);
    assert(all_to_send(keep) =~= seq![]);
    assert(all_to_send(accept) =~= seq![(rf, InterceptVerdict::Accept)]);
    assert(all_to_send(drop) =~= seq![(rf, InterceptVerdict::Drop)]);
}

} // verus!
