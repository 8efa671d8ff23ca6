//! What the REST API serves: the last polled register values, when they were
//! polled, and the last error, with how each poll outcome updates them.
use vstd::prelude::*;
use vstd::string::*;
use std::collections::BTreeMap;
use crate::clock::{is_rfc3339_text, now_rfc3339};
use crate::text::{decimal, push_decimal, push_str};
use crate::client::{numbered, NextStep, PollEvent};

verus! {

broadcast use vstd::laws_cmp::group_laws_cmp;

/// The state behind the REST API.
pub struct RegisterState {
    /// Last polled value of each register, keyed by register number (served
    /// as its decimal text).
    pub registers: BTreeMap<u16, u16>,
    /// When the values were last polled (RFC 3339), if ever.
    pub last_updated: Option<String>,
    /// The last poll or connection error, cleared by a successful poll.
    pub error: Option<String>,
}

impl Default for RegisterState {
    fn default() -> (s: RegisterState)
        ensures
            s.registers@ == Map::<u16, u16>::empty(),
            s.last_updated is None,
            s.error is None,
    {
        RegisterState { registers: BTreeMap::new(), last_updated: None, error: None }
    }
}

/// The register map that a list of (register, value) pairs makes, a later pair
/// for the same register overriding an earlier one.
pub open spec fn pairs_map(pairs: Seq<(u16, u16)>) -> Map<u16, u16>
    decreases pairs.len(),
{
    if pairs.len() == 0 {
        Map::empty()
    } else {
        pairs_map(pairs.drop_last()).insert(pairs.last().0, pairs.last().1)
    }
}

/// What a poll stores is what the API serves back: after a poll of the values
/// `values` from register `start` on, each register of the range maps to its
/// polled value, and no register outside the range is present.
pub proof fn law_poll_readback(start: u16, values: Seq<u16>)
    requires
        start + values.len() <= 65536,
    ensures
        forall|i: int|
            0 <= i < values.len() ==> {
                let m = pairs_map(numbered(start, values));
                &&& m.contains_key(#[trigger] ((start + i) as u16))
                &&& m[(start + i) as u16] == values[i]
            },
        forall|a: u16| #[trigger] pairs_map(numbered(start, values)).contains_key(a) ==> start <= a < start + values.len(),
    decreases values.len(),
{
    if values.len() > 0 {
        let rest = values.drop_last();
        law_poll_readback(start, rest);
        assert(numbered(start, values).drop_last() =~= numbered(start, rest));
        let n = values.len() - 1;
        assert(numbered(start, values).last() == ((start + n) as u16, values[n]));
        assert(pairs_map(numbered(start, values)) == pairs_map(numbered(start, rest)).insert(
            (start + n) as u16,
            values[n],
        ));
        assert forall|a: u16| #[trigger] pairs_map(numbered(start, values)).contains_key(a) implies start <= a
            < start + values.len() by {
            if a != (start + n) as u16 {
                assert(pairs_map(numbered(start, rest)).contains_key(a));
            }
        }
        assert forall|i: int| 0 <= i < values.len() implies {
            let m = pairs_map(numbered(start, values));
            &&& m.contains_key(#[trigger] ((start + i) as u16))
            &&& m[(start + i) as u16] == values[i]
        } by {
            if i < n {
                assert(rest[i] == values[i]);
                assert((start + i) as u16 != (start + n) as u16);
            }
        }
    } else {
        assert(numbered(start, values) =~= Seq::<(u16, u16)>::empty());
    }
}

/// The message of a failed connection attempt, after the error's text.
pub open spec fn connect_failure_text(message: Seq<char>) -> Seq<char> {
    seq!['c', 'o', 'n', 'n', 'e', 'c', 't', 'i', 'o', 'n', ' ', 'f', 'a', 'i', 'l', 'e', 'd', ':', ' ']
        + message
}

/// The body text of a lookup of an unknown register.
pub open spec fn not_found_text(address: u16) -> Seq<char> {
    seq!['r', 'e', 'g', 'i', 's', 't', 'e', 'r', ' '] + decimal(address as nat) + seq![
        ' ',
        'n',
        'o',
        't',
        ' ',
        'f',
        'o',
        'u',
        'n',
        'd',
    ]
}

impl RegisterState {
    /// Records a successful poll at `timestamp`: the register map becomes
    /// exactly the polled pairs, and the error is cleared.
    pub fn record_values(&mut self, values: &[(u16, u16)], timestamp: String)
        ensures
            final(self).registers@ == pairs_map(values@),
            final(self).last_updated == Some(timestamp),
            final(self).error is None,
    {
        let mut map: BTreeMap<u16, u16> = BTreeMap::new();
        let mut i: usize = 0;
        while i < values.len()
            invariant
                i <= values@.len(),
                map@ == pairs_map(values@.take(i as int)),
            decreases values@.len() - i,
        {
            let (k, v) = values[i];
            map.insert(k, v);
            proof {
                assert(values@.take(i + 1).drop_last() =~= values@.take(i as int));
                assert(values@.take(i + 1).last() == (k, v));
            }
            i = i + 1;
        }
        proof {
            assert(values@.take(values@.len() as int) =~= values@);
        }
        self.registers = map;
        self.last_updated = Some(timestamp);
        self.error = None;
    }

    /// Records a successful poll now (the timestamp is the current UTC time,
    /// in RFC 3339 form).
    pub fn record_values_now(&mut self, values: &[(u16, u16)])
        ensures
            final(self).registers@ == pairs_map(values@),
            final(self).last_updated matches Some(t) && is_rfc3339_text(t@),
            final(self).error is None,
    {
        let timestamp = now_rfc3339();
        self.record_values(values, timestamp);
    }

    /// Records a failed poll: the error becomes `message`; the last values and
    /// their time stay served.
    pub fn record_poll_error(&mut self, message: String)
        ensures
            final(self).registers@ == old(self).registers@,
            final(self).last_updated == old(self).last_updated,
            final(self).error == Some(message),
    {
        self.error = Some(message);
    }

    /// Records a failed connection: the error becomes "connection failed: "
    /// followed by `message`; the last values and their time stay served.
    pub fn record_connect_error(&mut self, message: &str)
        ensures
            final(self).registers@ == old(self).registers@,
            final(self).last_updated == old(self).last_updated,
            final(self).error matches Some(e) && e@ == connect_failure_text(message@),
    {
        let mut text = String::new();
        push_str(&mut text, "connection failed: ");
        proof {
            reveal_strlit("connection failed: ");
        }
        push_str(&mut text, message);
        assert(text@ =~= connect_failure_text(message@));
        self.error = Some(text);
    }

    /// One step of the background poller of the REST API: a successful poll
    /// is stored with the current time and polling goes on after one interval;
    /// a failed poll is stored as the error and the poller reconnects at once; a
    /// failed connection is stored as "connection failed: ..." and the poller
    /// reconnects after one interval; a new connection is polled at once.
    pub fn serve_step(&mut self, event: PollEvent) -> (next: NextStep)
        ensures
            match event {
                PollEvent::Connected => next == NextStep::Poll && *final(self) == *old(self),
                PollEvent::Polled(values) => next == NextStep::PollAfterInterval
                    && final(self).registers@ == pairs_map(values@)
                    && (final(self).last_updated matches Some(t) && is_rfc3339_text(t@))
                    && final(self).error is None,
                PollEvent::PollFailed(message) => next == NextStep::Reconnect
                    && final(self).registers@ == old(self).registers@
                    && final(self).last_updated == old(self).last_updated
                    && final(self).error == Some(message),
                PollEvent::ConnectFailed(message) => next == NextStep::ReconnectAfterInterval
                    && final(self).registers@ == old(self).registers@
                    && final(self).last_updated == old(self).last_updated
                    && (final(self).error matches Some(e) && e@ == connect_failure_text(message@)),
            },
    {
        match event {
            PollEvent::Connected => NextStep::Poll,
            PollEvent::Polled(values) => {
                self.record_values_now(values.as_slice());
                NextStep::PollAfterInterval
            },
            PollEvent::PollFailed(message) => {
                self.record_poll_error(message);
                NextStep::Reconnect
            },
            PollEvent::ConnectFailed(message) => {
                self.record_connect_error(message.as_str());
                NextStep::ReconnectAfterInterval
            },
        }
    }

    /// The last polled value of register `address`, if it was polled.
    pub fn lookup(&self, address: u16) -> (r: Option<u16>)
        ensures
            r == if self.registers@.contains_key(address) {
                Some(self.registers@[address])
            } else {
                None
            },
    {
        match self.registers.get(&address) {
            Some(v) => Some(*v),
            None => None,
        }
    }
}

/// The answer to a request for one register.
pub enum RegisterReply {
    /// The register was polled: its number, its value, and when it was polled.
    Found { address: u16, value: u16, last_updated: Option<String> },
    /// The register was not polled: the error text (served with status 404).
    NotFound { message: String },
}

impl RegisterState {
    /// The answer to a request for register `address`: its last polled value
    /// with the poll time, or "register ADDRESS not found".
    pub fn register_reply(&self, address: u16) -> (reply: RegisterReply)
        ensures
            match reply {
                RegisterReply::Found { address: a, value, last_updated } => self.registers@.contains_key(address)
                    && a == address && value == self.registers@[address] && last_updated == self.last_updated,
                RegisterReply::NotFound { message } => !self.registers@.contains_key(address)
                    && message@ == not_found_text(address),
            },
    {
        match self.lookup(address) {
            Some(value) => {
                let last_updated = match &self.last_updated {
                    Some(t) => Some(t.clone()),
                    None => None,
                };
                RegisterReply::Found { address, value, last_updated }
            },
            None => RegisterReply::NotFound { message: not_found_message(address) },
        }
    }
}

/// The error text for a lookup of register `address` that was not polled:
/// "register ADDRESS not found".
pub fn not_found_message(address: u16) -> (m: String)
    ensures
        m@ == not_found_text(address),
{
    let mut m = String::new();
    push_str(&mut m, "register ");
    proof {
        reveal_strlit("register ");
    }
    push_decimal(&mut m, address);
    push_str(&mut m, " not found");
    proof {
        reveal_strlit(" not found");
    }
    assert(m@ =~= not_found_text(address));
    m
}

} // verus!
