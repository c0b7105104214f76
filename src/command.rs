use vstd::prelude::*;

use crate::url::{chars_of, has_at, message_ref, parse_chars};

verus! {

/// The character that starts every command.
pub const COMMAND_PREFIX: &'static str = "-";

/// The two commands: both take a message URL, and differ only in what they
/// do to the message.
#[derive(Clone, Copy, Debug, PartialEq, Eq, Structural)]
pub enum Command {
    Pin,
    Unpin,
}

/// Why a command did not reach its end; each has one reply.
#[derive(Clone, Copy, Debug, PartialEq, Eq, Structural)]
pub enum CommandError {
    /// The command text is not the command's prefix followed by a URL.
    MissingInput,
    /// The text after the prefix is no message URL.
    MalformedUrl,
    /// The command was sent outside any guild.
    NoGuildContext,
    /// The URL points into another guild than the one the command came from.
    GuildMismatch,
    /// The backend could not fetch the referenced message.
    FetchFailed,
    /// The backend refused to pin or unpin the message.
    PermissionDenied,
}

pub open spec fn reply_text(e: CommandError) -> Seq<char> {
    match e {
        CommandError::MissingInput => "Input required: message URL"@,
        CommandError::MalformedUrl => "Invalid message URL"@,
        CommandError::NoGuildContext => "Message sent outside of guild?"@,
        CommandError::GuildMismatch => "No. Absolutely not."@,
        CommandError::FetchFailed => "Couldn't get message"@,
        CommandError::PermissionDenied => "Insufficient permissions"@,
    }
}

impl CommandError {
    /// The reply sent to the invoking channel.
    pub fn reply(&self) -> (r: &'static str)
        ensures
            r@ == reply_text(*self),
    {
        match self {
            CommandError::MissingInput => "Input required: message URL",
            CommandError::MalformedUrl => "Invalid message URL",
            CommandError::NoGuildContext => "Message sent outside of guild?",
            CommandError::GuildMismatch => "No. Absolutely not.",
            CommandError::FetchFailed => "Couldn't get message",
            CommandError::PermissionDenied => "Insufficient permissions",
        }
    }
}

impl Command {
    pub open spec fn spec_name(self) -> Seq<char> {
        match self {
            Command::Pin => seq!['p', 'i', 'n'],
            Command::Unpin => seq!['u', 'n', 'p', 'i', 'n'],
        }
    }

    /// The text that starts an invocation: the trigger character, the
    /// command's name and one space.
    pub open spec fn spec_prefix(self) -> Seq<char> {
        seq!['-'] + self.spec_name() + seq![' ']
    }

    /// The word that names the command.
    pub fn name(&self) -> (r: &'static str)
        ensures
            r@ == self.spec_name(),
    {
        proof {
            reveal_strlit("pin");
            reveal_strlit("unpin");
        }
        match self {
            Command::Pin => "pin",
            Command::Unpin => "unpin",
        }
    }

    /// The text that starts an invocation, as in `-pin `.
    pub fn prefix(&self) -> (r: String)
        ensures
            r@ == self.spec_prefix(),
    {
        proof {
            reveal_strlit("-");
            reveal_strlit(" ");
        }
        let mut p = String::from_str(COMMAND_PREFIX);
        p.append(self.name());
        p.append(" ");
        p
    }
}

/// `content` begins with `prefix`.
pub open spec fn starts_with(content: Seq<char>, prefix: Seq<char>) -> bool {
    prefix.len() <= content.len() && content.take(prefix.len() as int) == prefix
}

/// What an invocation with text `content`, sent in guild `guild_id` (`None`
/// outside any guild), asks for: the (channel, message) ids of the message
/// to fetch, or the first check that fails.
///
/// The checks come in this order: the text starts with `prefix`; the rest is
/// a message URL; the command came from a guild; that guild is the URL's.
pub open spec fn target_of(prefix: Seq<char>, content: Seq<char>, guild_id: Option<u64>) -> Result<
    (u64, u64),
    CommandError,
> {
    if !starts_with(content, prefix) {
        Err(CommandError::MissingInput)
    } else {
        match message_ref(content.skip(prefix.len() as int)) {
            None => Err(CommandError::MalformedUrl),
            Some((sv, ch, mg)) => match guild_id {
                None => Err(CommandError::NoGuildContext),
                Some(g) => if g != sv {
                    Err(CommandError::GuildMismatch)
                } else {
                    Ok((ch, mg))
                },
            },
        }
    }
}

/// Checks a command's text `content`, sent in guild `guild_id`, against its
/// expected prefix `strip_prefix`, and gives the (channel, message) ids of the
/// message to fetch, or the error to reply with.
pub fn process_inputs(strip_prefix: &str, content: &str, guild_id: Option<u64>) -> (r: Result<
    (u64, u64),
    CommandError,
>)
    ensures
        r == target_of(strip_prefix@, content@, guild_id),
{
    let ps = chars_of(strip_prefix);
    let cs = chars_of(content);
    if !has_at(&cs, 0, ps.as_slice()) {
        assert(cs@.subrange(0, ps@.len() as int) =~= cs@.take(ps@.len() as int));
        return Err(CommandError::MissingInput);
    }
    assert(cs@.subrange(0, ps@.len() as int) =~= cs@.take(ps@.len() as int));
    match parse_chars(&cs, ps.len()) {
        None => Err(CommandError::MalformedUrl),
        Some((sv, ch, mg)) => match guild_id {
            None => Err(CommandError::NoGuildContext),
            Some(g) => if g != sv {
                Err(CommandError::GuildMismatch)
            } else {
                Ok((ch, mg))
            },
        },
    }
}

/// Where an invocation stands between its outside calls.
#[derive(Clone, Copy, Debug, PartialEq, Eq, Structural)]
pub enum Stage {
    /// Waiting for the backend to fetch the target message.
    Fetching,
    /// Waiting for the backend to pin or unpin the fetched message.
    Mutating,
    /// Nothing more happens.
    Finished,
}

/// What the backend reports back to an invocation.
#[derive(Clone, Copy, Debug, PartialEq, Eq, Structural)]
pub enum Event {
    /// The fetch of the target message succeeded, or failed.
    Fetched { ok: bool },
    /// The pin or unpin succeeded, or failed.
    Mutated { ok: bool },
}

/// What the invocation asks its driver to do next.
#[derive(Clone, Copy, Debug, PartialEq, Eq, Structural)]
pub enum Action {
    /// Send this error's reply to the invoking channel; the invocation is over.
    Reply(CommandError),
    /// Fetch the message with these ids, then report `Event::Fetched`.
    Fetch { channel_id: u64, message_id: u64 },
    /// Pin or unpin the fetched message, then report `Event::Mutated`.
    Mutate(Command),
    /// The invocation is over, with nothing to send.
    Finish,
}

/// One pin or unpin command, from its text to its last action.
#[derive(Clone, Copy, Debug, PartialEq, Eq, Structural)]
pub struct Invocation {
    pub command: Command,
    pub stage: Stage,
}

/// The invocation and first action for `command` with text `content`, sent
/// in guild `guild_id`.
pub open spec fn start_of(command: Command, content: Seq<char>, guild_id: Option<u64>) -> (
    Invocation,
    Action,
) {
    match target_of(command.spec_prefix(), content, guild_id) {
        Err(e) => (Invocation { command, stage: Stage::Finished }, Action::Reply(e)),
        Ok((ch, mg)) => (
            Invocation { command, stage: Stage::Fetching },
            Action::Fetch { channel_id: ch, message_id: mg },
        ),
    }
}

/// The next invocation and action once `event` is reported to `inv`.
///
/// A fetched message is pinned or unpinned; a failed fetch or mutation is
/// replied to; an event that the stage does not wait for ends the invocation.
pub open spec fn transition(inv: Invocation, event: Event) -> (Invocation, Action) {
    let done = Invocation { command: inv.command, stage: Stage::Finished };
    match (inv.stage, event) {
        (Stage::Fetching, Event::Fetched { ok }) => if ok {
            (Invocation { command: inv.command, stage: Stage::Mutating }, Action::Mutate(inv.command))
        } else {
            (done, Action::Reply(CommandError::FetchFailed))
        },
        (Stage::Mutating, Event::Mutated { ok }) => if ok {
            (done, Action::Finish)
        } else {
            (done, Action::Reply(CommandError::PermissionDenied))
        },
        _ => (done, Action::Finish),
    }
}

/// The actions that `inv` takes when `events` are reported to it in turn.
pub open spec fn run(inv: Invocation, events: Seq<Event>) -> Seq<Action>
    decreases events.len(),
{
    if events.len() == 0 {
        seq![]
    } else {
        let (next, action) = transition(inv, events[0]);
        seq![action] + run(next, events.drop_first())
    }
}

/// The action touches the target message: it fetches it, or pins or unpins it.
pub open spec fn touches_target(a: Action) -> bool {
    a is Fetch || a is Mutate
}

impl Invocation {
    /// Starts `command` on an invocation with text `content`, sent in guild
    /// `guild_id` (`None` outside any guild).
    pub fn start(command: Command, content: &str, guild_id: Option<u64>) -> (r: (Invocation, Action))
        ensures
            r == start_of(command, content@, guild_id),
    {
        let prefix = command.prefix();
        match process_inputs(prefix.as_str(), content, guild_id) {
            Err(e) => (Invocation { command, stage: Stage::Finished }, Action::Reply(e)),
            Ok((ch, mg)) => (
                Invocation { command, stage: Stage::Fetching },
                Action::Fetch { channel_id: ch, message_id: mg },
            ),
        }
    }

    /// Reports `event` to the invocation, and gives its next action.
    pub fn step(&mut self, event: Event) -> (a: Action)
        ensures
            (*final(self), a) == transition(*old(self), event),
    {
        let command = self.command;
        match (self.stage, event) {
            (Stage::Fetching, Event::Fetched { ok }) => if ok {
                self.stage = Stage::Mutating;
                Action::Mutate(command)
            } else {
                self.stage = Stage::Finished;
                Action::Reply(CommandError::FetchFailed)
            },
            (Stage::Mutating, Event::Mutated { ok }) => {
                self.stage = Stage::Finished;
                if ok {
                    Action::Finish
                } else {
                    Action::Reply(CommandError::PermissionDenied)
                }
            },
            _ => {
                self.stage = Stage::Finished;
                Action::Finish
            },
        }
    }
}

/// A finished invocation only ever finishes again.
proof fn lemma_finished_stays_quiet(inv: Invocation, events: Seq<Event>)
    requires
        inv.stage == Stage::Finished,
    ensures
        run(inv, events).len() == events.len(),
        forall|i: int| 0 <= i < events.len() ==> run(inv, events)[i] == Action::Finish,
    decreases events.len(),
{
    if events.len() > 0 {
        let (next, action) = transition(inv, events[0]);
        lemma_finished_stays_quiet(next, events.drop_first());
        let rest = run(next, events.drop_first());
        assert forall|i: int| 0 <= i < events.len() implies run(inv, events)[i] == Action::Finish by {
            if i > 0 {
                assert(run(inv, events)[i] == rest[i - 1]);
            }
        }
    }
}

/// A command sent in one guild whose URL points into another is refused with
/// the guild-mismatch reply, and never fetches, pins or unpins anything:
/// whatever the backend reports afterwards, whether or not the message exists.
pub proof fn lemma_guild_mismatch_never_touches(
    command: Command,
    content: Seq<char>,
    guild_id: u64,
    events: Seq<Event>,
)
    requires
        starts_with(content, command.spec_prefix()),
        message_ref(content.skip(command.spec_prefix().len() as int)) matches Some((sv, _, _))
            && sv != guild_id,
    ensures
        start_of(command, content, Some(guild_id)).1 == Action::Reply(CommandError::GuildMismatch),
        !touches_target(start_of(command, content, Some(guild_id)).1),
        forall|i: int|
            0 <= i < events.len() ==> !touches_target(
                #[trigger] run(start_of(command, content, Some(guild_id)).0, events)[i],
            ),
{
    let inv = start_of(command, content, Some(guild_id)).0;
    lemma_finished_stays_quiet(inv, events);
}

/// After the fetch, at most the first action is not `Finish`, and it is no
/// fetch and no mutation.
proof fn lemma_mutating_run(inv: Invocation, events: Seq<Event>)
    requires
        inv.stage == Stage::Mutating,
    ensures
        run(inv, events).len() == events.len(),
        forall|i: int| 0 < i < events.len() ==> run(inv, events)[i] == Action::Finish,
        forall|i: int| 0 <= i < events.len() ==> !touches_target(#[trigger] run(inv, events)[i]),
{
    if events.len() > 0 {
        let (next, action) = transition(inv, events[0]);
        lemma_finished_stays_quiet(next, events.drop_first());
        let rest = run(next, events.drop_first());
        assert forall|i: int| 0 < i < events.len() implies run(inv, events)[i] == Action::Finish by {
            assert(run(inv, events)[i] == rest[i - 1]);
        }
    }
}

/// While the fetch is awaited, the actions hold no fetch, at most one reply
/// and at most one mutation.
proof fn lemma_fetching_run(inv: Invocation, events: Seq<Event>)
    requires
        inv.stage == Stage::Fetching,
    ensures
        run(inv, events).len() == events.len(),
        forall|i: int| 0 <= i < events.len() ==> !(#[trigger] run(inv, events)[i] is Fetch),
        forall|i: int, j: int|
            0 <= i < j < events.len() ==> !(#[trigger] run(inv, events)[i] is Reply && #[trigger] run(
                inv,
                events,
            )[j] is Reply),
        forall|i: int, j: int|
            0 <= i < j < events.len() ==> !(#[trigger] run(inv, events)[i] is Mutate && #[trigger] run(
                inv,
                events,
            )[j] is Mutate),
{
    if events.len() > 0 {
        let (next, action) = transition(inv, events[0]);
        let rest = run(next, events.drop_first());
        if next.stage == Stage::Finished {
            lemma_finished_stays_quiet(next, events.drop_first());
        } else {
            lemma_mutating_run(next, events.drop_first());
        }
        assert forall|i: int| 0 < i < events.len() implies run(inv, events)[i] == rest[i - 1] by {
            assert(run(inv, events)[i] == rest[i - 1]);
        }
    }
}

/// Each invocation sends at most one reply and pins or unpins at most once,
/// whatever the backend reports: among the first action and all that follow,
/// no two are replies and no two are mutations.
pub proof fn lemma_one_reply_one_mutation(
    command: Command,
    content: Seq<char>,
    guild_id: Option<u64>,
    events: Seq<Event>,
)
    ensures
        ({
            let (inv, first) = start_of(command, content, guild_id);
            let actions = seq![first] + run(inv, events);
            &&& forall|i: int, j: int|
                0 <= i < j < actions.len() ==> !(#[trigger] actions[i] is Reply
                    && #[trigger] actions[j] is Reply)
            &&& forall|i: int, j: int|
                0 <= i < j < actions.len() ==> !(#[trigger] actions[i] is Mutate
                    && #[trigger] actions[j] is Mutate)
        }),
{
    let (inv, first) = start_of(command, content, guild_id);
    let actions = seq![first] + run(inv, events);
    let rest = run(inv, events);
    if inv.stage == Stage::Finished {
        lemma_finished_stays_quiet(inv, events);
    } else {
        lemma_fetching_run(inv, events);
    }
    assert forall|i: int| 0 < i < actions.len() implies actions[i] == rest[i - 1] by {}
    assert(!(first is Mutate));
    assert(inv.stage == Stage::Fetching ==> !(first is Reply));
}

} // verus!
