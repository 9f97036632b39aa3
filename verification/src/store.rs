//! The commands that the index sends to Valkey, and what they do there.
//!
//! The library plans commands; whoever holds the connection sends them. What a command does is
//! modelled by [`Store`], so that what the plans achieve can be stated and proved.
use vstd::prelude::*;

verus! {

/// A command that writes to Valkey.
#[derive(Debug)]
pub enum Command {
    /// `SETEX`: sets `key` to `value`, to expire in `ttl` seconds.
    SetEx { key: String, value: Vec<u8>, ttl: u64 },
    /// `SADD`: adds `member` to the set at `key`.
    AddMember { key: String, member: String },
    /// `EXPIRE` with `NX`, then `EXPIRE` with `GT`: lets `key` live for another `seconds` at least,
    /// and never shortens its life.
    Extend { key: String, seconds: i64 },
    /// `DEL`: drops the keys.
    Delete { keys: Vec<String> },
}

/// A command, over text and bytes.
#[verifier::ext_equal]
pub enum CommandView {
    SetEx { key: Seq<char>, value: Seq<u8>, ttl: u64 },
    AddMember { key: Seq<char>, member: Seq<char> },
    Extend { key: Seq<char>, seconds: i64 },
    Delete { keys: Seq<Seq<char>> },
}

/// The texts of a list of strings.
pub open spec fn texts(strings: Seq<String>) -> Seq<Seq<char>> {
    strings.map_values(|s: String| s@)
}

impl View for Command {
    type V = CommandView;

    open spec fn view(&self) -> CommandView {
        match self {
            Command::SetEx { key, value, ttl } => CommandView::SetEx {
                key: key@,
                value: value@,
                ttl: *ttl,
            },
            Command::AddMember { key, member } => CommandView::AddMember {
                key: key@,
                member: member@,
            },
            Command::Extend { key, seconds } => CommandView::Extend {
                key: key@,
                seconds: *seconds,
            },
            Command::Delete { keys } => CommandView::Delete { keys: texts(keys@) },
        }
    }
}

/// The commands of a list, over text and bytes.
pub open spec fn command_views(commands: Seq<Command>) -> Seq<CommandView> {
    commands.map_values(|c: Command| c@)
}

/// A value in the store.
#[verifier::ext_equal]
pub enum Held {
    Bytes(Seq<u8>),
    Ids(Set<Seq<char>>),
}

/// A value with the time, in milliseconds, from which on it is gone.
#[verifier::ext_equal]
pub struct Entry {
    pub value: Held,
    pub expires: Option<int>,
}

/// Whether Valkey refuses a time to live because its milliseconds, or those of the time when it
/// ends, do not fit in 64 bits.
pub open spec fn is_refused(seconds: int, now: int) -> bool {
    1000 * seconds < i64::MIN || 1000 * seconds > i64::MAX || now + 1000 * seconds > i64::MAX
}

/// Whether Valkey accepts a time to live for `SETEX`: it has to be positive and may not overflow.
pub open spec fn is_ttl(seconds: int, now: int) -> bool {
    seconds > 0 && !is_refused(seconds, now)
}

/// What Valkey holds: the entries by key, expired ones included.
#[verifier::ext_equal]
pub struct Store {
    pub entries: Map<Seq<char>, Entry>,
}

impl Store {
    /// Whether there is an entry at `key` that has not expired.
    pub open spec fn live(self, key: Seq<char>, now: int) -> bool {
        self.entries.contains_key(key) && match self.entries[key].expires {
            Some(deadline) => now < deadline,
            None => true,
        }
    }

    /// `GET`: the bytes at `key`, if any.
    pub open spec fn bytes(self, key: Seq<char>, now: int) -> Option<Seq<u8>> {
        if self.live(key, now) {
            match self.entries[key].value {
                Held::Bytes(bytes) => Some(bytes),
                Held::Ids(_) => None,
            }
        } else {
            None
        }
    }

    /// `SMEMBERS`: the members of the set at `key`, none where there is no set.
    pub open spec fn members(self, key: Seq<char>, now: int) -> Set<Seq<char>> {
        if self.live(key, now) {
            match self.entries[key].value {
                Held::Ids(ids) => ids,
                Held::Bytes(_) => Set::empty(),
            }
        } else {
            Set::empty()
        }
    }

    /// When an entry expires that is to live until `deadline` at least: then, or when it does
    /// anyway where that is later.
    pub open spec fn extended(self, key: Seq<char>, now: int, deadline: int) -> int {
        if self.live(key, now) && self.entries[key].expires is Some
            && self.entries[key].expires.unwrap() > deadline {
            self.entries[key].expires.unwrap()
        } else {
            deadline
        }
    }

    /// The store with `entry` at `key`.
    pub open spec fn with(self, key: Seq<char>, entry: Entry) -> Store {
        Store { entries: self.entries.insert(key, entry) }
    }

    /// The store after a command that arrives at time `now`, in milliseconds. A command that Valkey
    /// refuses changes nothing.
    pub open spec fn apply(self, command: CommandView, now: int) -> Store {
        match command {
            CommandView::SetEx { key, value, ttl } => if is_ttl(ttl as int, now) {
                self.with(
                    key,
                    Entry { value: Held::Bytes(value), expires: Some(now + 1000 * ttl) },
                )
            } else {
                self
            },
            CommandView::AddMember { key, member } => if !self.live(key, now) {
                self.with(key, Entry { value: Held::Ids(set![member]), expires: None })
            } else {
                match self.entries[key].value {
                    Held::Ids(ids) => self.with(
                        key,
                        Entry {
                            value: Held::Ids(ids.insert(member)),
                            expires: self.entries[key].expires,
                        },
                    ),
                    Held::Bytes(_) => self,
                }
            },
            CommandView::Extend { key, seconds } => if !self.live(key, now) || is_refused(
                seconds as int,
                now,
            ) {
                self
            } else if self.entries[key].expires is None && seconds <= 0 {
                Store { entries: self.entries.remove(key) }
            } else {
                self.with(
                    key,
                    Entry {
                        value: self.entries[key].value,
                        expires: Some(self.extended(key, now, now + 1000 * seconds)),
                    },
                )
            },
            CommandView::Delete { keys } => Store {
                entries: self.entries.remove_keys(keys.to_set()),
            },
        }
    }

    /// The store after the commands, one after the other, at time `now`.
    pub open spec fn apply_all(self, commands: Seq<CommandView>, now: int) -> Store
        decreases commands.len(),
    {
        if commands.len() == 0 {
            self
        } else {
            self.apply_all(commands.drop_last(), now).apply(commands.last(), now)
        }
    }

    /// Whether every cell key holds a set of ids that expires at some time.
    pub open spec fn cells_hold_ids(self) -> bool {
        forall|depth: u8, cell: u64|
            self.entries.contains_key(#[trigger] crate::keys::cell_key_text(depth, cell)) ==> {
                let entry = self.entries[crate::keys::cell_key_text(depth, cell)];
                entry.value is Ids && entry.expires is Some
            }
    }
}

/// Commands in a row are those of the first list, then those of the second.
pub proof fn lemma_apply_all_concat(
    store: Store,
    first: Seq<CommandView>,
    second: Seq<CommandView>,
    now: int,
)
    ensures
        store.apply_all(first + second, now) == store.apply_all(first, now).apply_all(second, now),
    decreases second.len(),
{
    if second.len() == 0 {
        assert(first + second =~= first);
    } else {
        lemma_apply_all_concat(store, first, second.drop_last(), now);
        assert((first + second).drop_last() =~= first + second.drop_last());
    }
}

/// A command is viewed field by field, and a list of them, or of strings, one by one.
pub proof fn law_commands_are_viewed_by_field(
    commands: Seq<Command>,
    strings: Seq<String>,
    i: int,
)
    ensures
        command_views(commands).len() == commands.len(),
        texts(strings).len() == strings.len(),
        0 <= i < strings.len() ==> texts(strings)[i] == strings[i]@,
        0 <= i < commands.len() ==> match commands[i] {
            Command::SetEx { key, value, ttl } => command_views(commands)[i] == (
            CommandView::SetEx { key: key@, value: value@, ttl }),
            Command::AddMember { key, member } => command_views(commands)[i] == (
            CommandView::AddMember { key: key@, member: member@ }),
            Command::Extend { key, seconds } => command_views(commands)[i] == (
            CommandView::Extend { key: key@, seconds }),
            Command::Delete { keys } => command_views(commands)[i] == (CommandView::Delete {
                keys: texts(keys@),
            }),
        },
{
}

/// `SETEX` sets a value that is there from now on until its time to live is over, and leaves every
/// other key alone. A time to live that is zero, or ends beyond what 64 bits count, changes nothing.
pub proof fn law_set_value_lasts_for_its_ttl(
    store: Store,
    key: Seq<char>,
    value: Seq<u8>,
    ttl: u64,
    now: int,
    later: int,
    other: Seq<char>,
)
    requires
        0 <= now <= later,
    ensures
        ({
            let after = store.apply(CommandView::SetEx { key, value, ttl }, now);
            let accepted = 0 < ttl && now + 1000 * ttl <= 9223372036854775807;
            &&& accepted ==> after.bytes(key, later) == if later - now < 1000 * ttl {
                Some(value)
            } else {
                None
            }
            &&& !accepted ==> after == store
            &&& other != key ==> after.bytes(other, later) == store.bytes(other, later)
                && after.members(other, later) == store.members(other, later)
        }),
{
}

/// `SADD` adds a member to a set, next to those that are there, and keeps when the set expires. Where
/// there was none, or what there was has expired, the set has this member alone. Bytes stay bytes,
/// and every other key is left alone.
pub proof fn law_added_member_joins_the_others(
    store: Store,
    key: Seq<char>,
    member: Seq<char>,
    now: int,
    later: int,
    other: Seq<char>,
)
    requires
        now <= later,
    ensures
        ({
            let after = store.apply(CommandView::AddMember { key, member }, now);
            &&& store.bytes(key, now) is None ==> after.members(key, now) == store.members(
                key,
                now,
            ).insert(member)
            &&& store.live(key, now) ==> after.live(key, later) == store.live(key, later)
            &&& !store.live(key, now) ==> after.members(key, later) == set![member]
            &&& store.bytes(key, now) is Some ==> after == store
            &&& other != key ==> after.bytes(other, later) == store.bytes(other, later)
                && after.members(other, later) == store.members(other, later)
        }),
{
    let after = store.apply(CommandView::AddMember { key, member }, now);
    assert(Set::<Seq<char>>::empty().insert(member) =~= set![member]);
}

/// Extending the life of an entry never shortens it: what is there stays there, as it is, until the
/// later of the time when it expires anyway and the end of the time given, from now on.
pub proof fn law_extending_never_shortens(
    store: Store,
    key: Seq<char>,
    seconds: i64,
    now: int,
    later: int,
    other: Seq<char>,
)
    requires
        0 <= now <= later,
        0 < seconds,
        now + 1000 * seconds <= 9223372036854775807,
        store.live(key, now),
    ensures
        ({
            let after = store.apply(CommandView::Extend { key, seconds }, now);
            &&& after.live(key, later) <==> later < now + 1000 * seconds || (
            store.entries[key].expires matches Some(deadline) && later < deadline)
            &&& after.live(key, later) ==> after.entries[key].value == store.entries[key].value
            &&& other != key ==> after.bytes(other, later) == store.bytes(other, later)
                && after.members(other, later) == store.members(other, later)
        }),
{
}

} // verus!
