//! Broadcast and point-to-point channels that carry protocol messages
//! between rounds.
use vstd::prelude::*;

verus! {

/// A message published on the broadcast channel.
#[derive(Debug)]
pub struct BroadcastMessage {
    pub sender: u64,
    pub payload: Vec<u8>,
}

/// The position of the last round stored under `round`, or -1.
pub open spec fn last_round_index(rounds: Seq<(u64, Vec<BroadcastMessage>)>, round: u64) -> int
    decreases rounds.len(),
{
    if rounds.len() == 0 {
        -1
    } else if rounds.last().0 == round {
        rounds.len() - 1
    } else {
        last_round_index(rounds.drop_last(), round)
    }
}

proof fn lemma_last_round_index_bounds(rounds: Seq<(u64, Vec<BroadcastMessage>)>, round: u64)
    ensures
        -1 <= last_round_index(rounds, round) < rounds.len(),
        last_round_index(rounds, round) >= 0 ==> rounds[last_round_index(rounds, round)].0
            == round,
    decreases rounds.len(),
{
    if rounds.len() > 0 && rounds.last().0 != round {
        lemma_last_round_index_bounds(rounds.drop_last(), round);
    }
}

/// Every round's messages, as stored in round order; a round stored again
/// supersedes the earlier messages of that round.
pub struct BroadcastChannel {
    messages: Vec<(u64, Vec<BroadcastMessage>)>,
}

impl BroadcastChannel {
    /// The stored rounds, oldest first.
    pub closed spec fn rounds(&self) -> Seq<(u64, Vec<BroadcastMessage>)> {
        self.messages@
    }

    /// The messages of `round`, if it was stored.
    pub open spec fn round_view(&self, round: u64) -> Option<Seq<BroadcastMessage>> {
        let i = last_round_index(self.rounds(), round);
        if i >= 0 {
            Some(self.rounds()[i].1@)
        } else {
            None
        }
    }

    pub fn new() -> (r: BroadcastChannel)
        ensures
            forall|round: u64| #[trigger] r.round_view(round) is None,
    {
        BroadcastChannel { messages: Vec::new() }
    }

    /// Publishes `messages` as those of `round`.
    pub fn store_round(&mut self, round: u64, messages: Vec<BroadcastMessage>)
        ensures
            final(self).round_view(round) == Some(messages@),
            forall|other: u64|
                other != round ==> #[trigger] final(self).round_view(other) == old(self).round_view(
                    other,
                ),
    {
        let ghost m = messages@;
        self.messages.push((round, messages));
        assert(self.rounds().drop_last() =~= old(self).rounds());
        assert forall|other: u64| other != round implies #[trigger] self.round_view(other)
            == old(self).round_view(other) by {
            assert(last_round_index(self.rounds(), other) == last_round_index(
                old(self).rounds(),
                other,
            ));
            lemma_last_round_index_bounds(old(self).rounds(), other);
            let k = last_round_index(old(self).rounds(), other);
            if k >= 0 {
                assert(self.rounds()[k] == old(self).rounds()[k]);
            }
        }
    }

    /// The messages published for `round`, if any.
    pub fn read_round(&self, round: u64) -> (r: Option<&Vec<BroadcastMessage>>)
        ensures
            match r {
                Some(v) => self.round_view(round) == Some(v@),
                None => self.round_view(round) is None,
            },
    {
        let mut i: usize = self.messages.len();
        assert(self.rounds().subrange(0, i as int) =~= self.rounds());
        while i > 0
            invariant
                i <= self.messages.len(),
                last_round_index(self.rounds(), round) == last_round_index(
                    self.rounds().subrange(0, i as int),
                    round,
                ),
            decreases i,
        {
            proof {
                let pre = self.rounds().subrange(0, i as int);
                assert(pre.drop_last() =~= self.rounds().subrange(0, i - 1));
            }
            if self.messages[i - 1].0 == round {
                proof {
                    let pre = self.rounds().subrange(0, i as int);
                    assert(pre.last() == self.rounds()[i - 1]);
                }
                return Some(&self.messages[i - 1].1);
            }
            i = i - 1;
        }
        proof {
            assert(self.rounds().subrange(0, 0).len() == 0);
        }
        None
    }
}

/// A point-to-point channel that holds the last message sent on it.
pub struct PrivateChannel {
    message: Option<Vec<u8>>,
}

impl PrivateChannel {
    /// The message held, as bytes.
    pub closed spec fn held(&self) -> Option<Seq<u8>> {
        match self.message {
            Some(m) => Some(m@),
            None => None,
        }
    }

    pub fn new() -> (r: PrivateChannel)
        ensures
            r.held() is None,
    {
        PrivateChannel { message: None }
    }

    /// Sends `message`, replacing what the channel held.
    pub fn store_msg(&mut self, message: &Vec<u8>)
        ensures
            final(self).held() == Some(message@),
    {
        let copy = message.clone();
        proof {
            assert(copy@ =~= message@);
        }
        self.message = Some(copy);
    }

    /// The message the channel holds, if any.
    pub fn read_msg_from_round(&self) -> (r: &Option<Vec<u8>>)
        ensures
            match *r {
                Some(m) => self.held() == Some(m@),
                None => self.held() is None,
            },
    {
        &self.message
    }
}

} // verus!
