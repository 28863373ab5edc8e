//! Chat lines: slash commands are told apart from speech before anything
//! is sent.
use vstd::prelude::*;
use crate::csv_text::{to_chars, trim, trim_range, range_eq};
use vstd::string::{StrSliceExecFns, StringExecFns};

verus! {

/// What a chat line asks for.
#[derive(Debug, Clone, PartialEq, Eq)]
pub enum ChatCommand {
    /// `/escape`: return to the world spawn.
    Escape,
    /// `/who`: count who is online.
    Who,
    /// `/give <item>`: grant an item.
    Give { item_id: String },
    /// Anything else is said to the players nearby.
    Say,
}

/// The command a line holds: `/escape` and `/who` when the trimmed line is
/// exactly that; `/give ` followed by the trimmed item id when the line
/// starts with it (untrimmed); speech otherwise.
pub open spec fn spec_chat_command(m: Seq<char>) -> (int, Seq<char>) {
    if trim(m) == "/escape"@ {
        (0, Seq::empty())
    } else if trim(m) == "/who"@ {
        (1, Seq::empty())
    } else if m.len() >= 6 && m.take(6) == "/give "@ {
        (2, trim(m.skip(6)))
    } else {
        (3, Seq::empty())
    }
}

pub open spec fn command_view(c: ChatCommand) -> (int, Seq<char>) {
    match c {
        ChatCommand::Escape => (0, Seq::empty()),
        ChatCommand::Who => (1, Seq::empty()),
        ChatCommand::Give { item_id } => (2, item_id@),
        ChatCommand::Say => (3, Seq::empty()),
    }
}

/// Surrounding blanks never change a command: a line that trims to
/// `/escape` or `/who` is that command; `/give ` at the very start of any
/// other line grants the trimmed rest; every other line is speech.
pub proof fn lemma_commands_by_trimmed_line(m: Seq<char>)
    ensures
        trim(m) == "/escape"@ ==> spec_chat_command(m).0 == 0,
        trim(m) == "/who"@ && trim(m) != "/escape"@ ==> spec_chat_command(m).0 == 1,
        spec_chat_command(m).0 == 2 ==> m.len() >= 6 && m.take(6) == "/give "@ && spec_chat_command(m).1 == trim(
            m.skip(6),
        ),
        spec_chat_command(m).0 == 3 ==> trim(m) != "/escape"@ && trim(m) != "/who"@ && !(m.len() >= 6 && m.take(6)
            == "/give "@),
        spec_chat_command(m).0 != 2 ==> spec_chat_command(m).1 == Seq::<char>::empty(),
{
}

/// Tell a chat line's command apart.
pub fn classify_chat(message: &str) -> (r: ChatCommand)
    ensures
        command_view(r) == spec_chat_command(message@),
{
    let v = to_chars(message);
    let n = v.len();
    let (a, b) = trim_range(&v, 0, n);
    proof {
        assert(v@.subrange(0, n as int) =~= v@);
    }
    let escape = to_chars("/escape");
    let who = to_chars("/who");
    let give = to_chars("/give ");
    if range_eq(&v, a, b, &escape) {
        return ChatCommand::Escape;
    }
    if range_eq(&v, a, b, &who) {
        return ChatCommand::Who;
    }
    if n >= 6 && range_eq(&v, 0, 6, &give) {
        let (ia, ib) = trim_range(&v, 6, n);
        proof {
            assert(v@.subrange(0, 6) =~= v@.take(6));
            assert(v@.subrange(6, n as int) =~= v@.skip(6));
        }
        return ChatCommand::Give { item_id: String::from_str(message.substring_char(ia, ib)) };
    }
    proof {
        if n >= 6 {
            assert(v@.subrange(0, 6) =~= v@.take(6));
        }
    }
    ChatCommand::Say
}

/// Whether `/escape` is locked for a player last in combat at
/// `last_combat_ms`: still inside the out-of-combat window `window_ms` at
/// `now_ms` (a clock that reads earlier than the last combat counts as no
/// time passed). The lockout keeps the command from doubling as a free
/// disengage.
pub fn escape_locked(now_ms: u64, last_combat_ms: u64, window_ms: u64) -> (r: bool)
    ensures
        r == ((if now_ms >= last_combat_ms { now_ms - last_combat_ms } else { 0 }) < window_ms),
{
    now_ms.saturating_sub(last_combat_ms) < window_ms
}

/// How many of the online players are people and how many NPCs.
pub open spec fn count_npcs(flags: Seq<bool>) -> int
    decreases flags.len(),
{
    if flags.len() == 0 {
        0
    } else {
        count_npcs(flags.drop_last()) + if flags.last() { 1int } else { 0 }
    }
}

/// `(humans, npcs)` among players whose NPC flags are `is_npc`.
pub fn who_counts(is_npc: &[bool]) -> (r: (u32, u32))
    requires
        is_npc@.len() <= u32::MAX,
    ensures
        r.1 == count_npcs(is_npc@),
        r.0 + r.1 == is_npc@.len(),
{
    let mut humans: u32 = 0;
    let mut npcs: u32 = 0;
    let mut i: usize = 0;
    while i < is_npc.len()
        invariant
            0 <= i <= is_npc@.len() <= u32::MAX,
            npcs == count_npcs(is_npc@.take(i as int)),
            humans + npcs == i,
        decreases is_npc@.len() - i,
    {
        proof {
            assert(is_npc@.take(i + 1).drop_last() =~= is_npc@.take(i as int));
        }
        if is_npc[i] {
            npcs = npcs + 1;
        } else {
            humans = humans + 1;
        }
        i = i + 1;
    }
    proof {
        assert(is_npc@.take(is_npc@.len() as int) =~= is_npc@);
    }
    (humans, npcs)
}

} // verus!
