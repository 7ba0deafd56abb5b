//! How much is read from a client at a time.

use vstd::prelude::*;
use crate::broker::state::BrokerState;
use crate::ingest::fast::FastLayouts;

verus! {

/// How much is read at first.
pub const CLIENT_READ_BUFFER_INITIAL: usize = 4096;

/// The most that is read from a busy client.
pub const CLIENT_READ_BUFFER_MAX_HOT: usize = 131072;

/// The most that is read from a client whose messages, with an alias, go nowhere.
pub const CLIENT_READ_BUFFER_MAX_FAST_ALIAS_INGEST: usize = 524288;

/// The most that is read from a client whose messages, with an alias, go to one receiver.
pub const CLIENT_READ_BUFFER_MAX_FAST_ALIAS_ROUTE: usize = 131072;

/// How much is to be read at a time, and how many reads in a row were that much.
#[derive(Debug, Clone, Copy, PartialEq, Eq, Structural)]
pub struct ReadPace {
    /// How much is to be read.
    pub target: usize,
    /// How many reads in a row were about that much.
    pub saturated: u8,
}

impl ReadPace {
    /// Whether a read was about as much as was to be read.
    pub open spec fn filled(self, read: nat) -> bool {
        read + 512 >= self.target
    }

    /// The pace after a read, where no more than `maximum` is to be read.
    pub open spec fn after(self, read: nat, maximum: usize) -> ReadPace {
        if !self.filled(read) {
            ReadPace { target: self.target, saturated: 0 }
        } else if self.saturated >= 1 && self.target < maximum {
            ReadPace {
                target: if 2 * self.target < maximum {
                    (2 * self.target) as usize
                } else {
                    maximum
                },
                saturated: 0,
            }
        } else {
            ReadPace {
                target: self.target,
                saturated: if self.saturated < 255 {
                    (self.saturated + 1) as u8
                } else {
                    255
                },
            }
        }
    }

    /// The pace of a new connection.
    pub fn new() -> (r: Self)
        ensures
            r.target == CLIENT_READ_BUFFER_INITIAL,
            r.saturated == 0,
    {
        ReadPace { target: CLIENT_READ_BUFFER_INITIAL, saturated: 0 }
    }

    /// Whether a buffer with this much room is to grow before the next read.
    pub fn wants_room(&self, room: usize) -> (r: bool)
        ensures
            r == (room < self.target),
    {
        room < self.target
    }

    /// Takes note of a read.
    pub fn note(&mut self, read: usize, maximum: usize)
        ensures
            *final(self) == old(self).after(read as nat, maximum),
    {
        if read >= self.target.saturating_sub(512) {
            if self.saturated < 255 {
                self.saturated = self.saturated + 1;
            }
            if self.saturated >= 2 && self.target < maximum {
                self.target = if self.target < maximum - self.target {
                    self.target * 2
                } else {
                    maximum
                };
                self.saturated = 0;
            }
        } else {
            self.saturated = 0;
        }
    }
}

/// The pace never falls, and does not go beyond the most that may be read.
pub proof fn law_pace_is_bounded(pace: ReadPace, read: nat, maximum: usize)
    ensures
        pace.target <= pace.after(read, maximum).target,
        pace.target <= maximum ==> pace.after(read, maximum).target <= maximum,
        pace.after(read, maximum).target <= 2 * pace.target,
{
}

/// Two full reads in a row raise the pace, as long as it may be raised.
pub proof fn law_two_full_reads_raise_the_pace(
    pace: ReadPace,
    first: nat,
    second: nat,
    maximum: usize,
)
    requires
        pace.filled(first),
        pace.saturated == 0,
        pace.filled(second),
        0 < pace.target < maximum,
    ensures
        pace.after(first, maximum).after(second, maximum).target > pace.target,
{
}

impl BrokerState {
    /// The most that is read from a client at a time.
    pub fn read_buffer_maximum(&self, client_id: &str, layouts: &FastLayouts) -> (r: usize)
        requires
            self.wf(),
        ensures
            ({
                let open = self@.sessions.contains_key(client_id@)
                    && self@.sessions[client_id@].session.allow_all_write && !self@.bridge_active;
                r == if open && layouts@.ingest_alias.total != 0 && self@.routes.len() == 0 {
                    CLIENT_READ_BUFFER_MAX_FAST_ALIAS_INGEST
                } else if open && layouts@.route_alias.total != 0 && self@.only_exact() {
                    CLIENT_READ_BUFFER_MAX_FAST_ALIAS_ROUTE
                } else {
                    CLIENT_READ_BUFFER_MAX_HOT
                }
            }),
    {
        let open = match self.sessions.get(client_id) {
            Some(entry) => entry.session.allow_all_write && !self.bridge_active,
            None => false,
        };
        if open && layouts.ingest_alias.total_len != 0 && !self.router.has_routes() {
            CLIENT_READ_BUFFER_MAX_FAST_ALIAS_INGEST
        } else if open && layouts.route_alias.total_len != 0 && self.router.has_only_exact_routes() {
            CLIENT_READ_BUFFER_MAX_FAST_ALIAS_ROUTE
        } else {
            CLIENT_READ_BUFFER_MAX_HOT
        }
    }
}

} // verus!
