use pinbot::command::{process_inputs, Action, Command, CommandError, Event, Invocation, Stage};

const URL: &str = "https://discord.com/channels/432708847304704010/432708847304704013/1008041568613191813";

#[test]
fn prefixes_are_built_from_the_command_names() {
    assert_eq!(Command::Pin.prefix(), "-pin ");
    assert_eq!(Command::Unpin.prefix(), "-unpin ");
    assert_eq!(Command::Unpin.name(), "unpin");
}

#[test]
fn reply_texts() {
    assert_eq!(CommandError::MissingInput.reply(), "Input required: message URL");
    assert_eq!(CommandError::MalformedUrl.reply(), "Invalid message URL");
    assert_eq!(CommandError::NoGuildContext.reply(), "Message sent outside of guild?");
    assert_eq!(CommandError::GuildMismatch.reply(), "No. Absolutely not.");
    assert_eq!(CommandError::FetchFailed.reply(), "Couldn't get message");
    assert_eq!(CommandError::PermissionDenied.reply(), "Insufficient permissions");
}

#[test]
fn missing_prefix_asks_for_input() {
    assert_eq!(process_inputs("-pin ", "-pin", Some(1)), Err(CommandError::MissingInput));
    assert_eq!(process_inputs("-pin ", "-unpin x", Some(1)), Err(CommandError::MissingInput));
}

#[test]
fn bad_url_is_malformed() {
    assert_eq!(process_inputs("-pin ", "-pin ", Some(1)), Err(CommandError::MalformedUrl));
    assert_eq!(
        process_inputs("-pin ", "-pin  https://discord.com/channels/1/2/3", Some(1)),
        Err(CommandError::MalformedUrl)
    );
}

#[test]
fn outside_a_guild_is_refused() {
    assert_eq!(
        process_inputs("-pin ", &format!("-pin {}", URL), None),
        Err(CommandError::NoGuildContext)
    );
}

#[test]
fn other_guild_is_refused() {
    assert_eq!(
        process_inputs("-pin ", &format!("-pin {}", URL), Some(432708847304704011)),
        Err(CommandError::GuildMismatch)
    );
}

#[test]
fn same_guild_gives_the_message_to_fetch() {
    assert_eq!(
        process_inputs("-unpin ", &format!("-unpin {}", URL), Some(432708847304704010)),
        Ok((432708847304704013, 1008041568613191813))
    );
}

#[test]
fn guild_mismatch_end_to_end() {
    let (mut inv, action) = Invocation::start(
        Command::Pin,
        "-pin https://discord.com/channels/200/300/400",
        Some(100),
    );
    assert_eq!(action, Action::Reply(CommandError::GuildMismatch));
    assert_eq!(action_reply(action), Some("No. Absolutely not."));
    assert_eq!(inv.stage, Stage::Finished);
    assert_eq!(inv.step(Event::Fetched { ok: true }), Action::Finish);
    assert_eq!(inv.step(Event::Mutated { ok: true }), Action::Finish);
}

fn action_reply(a: Action) -> Option<&'static str> {
    match a {
        Action::Reply(e) => Some(e.reply()),
        _ => None,
    }
}

#[test]
fn pin_runs_fetch_then_mutation() {
    let (mut inv, action) = Invocation::start(Command::Pin, "-pin http://discord.com/channels/7/8/9", Some(7));
    assert_eq!(action, Action::Fetch { channel_id: 8, message_id: 9 });
    assert_eq!(inv.stage, Stage::Fetching);
    assert_eq!(inv.step(Event::Fetched { ok: true }), Action::Mutate(Command::Pin));
    assert_eq!(inv.stage, Stage::Mutating);
    assert_eq!(inv.step(Event::Mutated { ok: true }), Action::Finish);
    assert_eq!(inv.stage, Stage::Finished);
}

#[test]
fn failed_fetch_is_replied_to() {
    let (mut inv, _) = Invocation::start(Command::Unpin, "-unpin http://discord.com/channels/7/8/9", Some(7));
    assert_eq!(inv.step(Event::Fetched { ok: false }), Action::Reply(CommandError::FetchFailed));
    assert_eq!(inv.stage, Stage::Finished);
}

#[test]
fn refused_unpin_is_replied_to() {
    let (mut inv, _) = Invocation::start(Command::Unpin, "-unpin http://discord.com/channels/7/8/9", Some(7));
    assert_eq!(inv.step(Event::Fetched { ok: true }), Action::Mutate(Command::Unpin));
    assert_eq!(inv.step(Event::Mutated { ok: false }), Action::Reply(CommandError::PermissionDenied));
}

#[test]
fn unexpected_event_ends_the_invocation() {
    let (mut inv, _) = Invocation::start(Command::Pin, "-pin http://discord.com/channels/7/8/9", Some(7));
    assert_eq!(inv.step(Event::Mutated { ok: true }), Action::Finish);
    assert_eq!(inv.stage, Stage::Finished);
}
