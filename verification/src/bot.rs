//! The rules of the countdown chat bot: how many days remain until a dated
//! entry, which replies a message calls for, and the texts it sends.

use vstd::prelude::*;
use vstd::string::StringSliceAdditionalSpecFns;
use crate::calendar::julian_day;
use crate::manager::countdown_diff;
use crate::clock::{chrono_parsed_date, days_between, is_chrono_date, local_today, parse_date};
use crate::dates::{DateEntry, DateTable};
use crate::text::{decimal, eq_ignore_ascii_case, eq_ignoring_ascii_case, push_decimal, trim, trimmed};

verus! {

/// The format of a date key: four-digit year, month, day (`20251225`).
pub const DATE_KEY_FORMAT: &'static str = "%Y%m%d";

/// The count a date `diff` days ahead gets: one more than `diff` for a later
/// date, nothing for today or a past date.
pub open spec fn countdown_of(diff: int) -> Option<u64> {
    if diff > 0 {
        Some((diff + 1) as u64)
    } else {
        None
    }
}

/// The count of `target` as seen on `today`.
pub open spec fn days_until_date(target: (i32, u32, u32), today: (i32, u32, u32)) -> Option<u64> {
    countdown_of(
        julian_day(target.0 as int, target.1 as int, target.2 as int) - julian_day(
            today.0 as int,
            today.1 as int,
            today.2 as int,
        ),
    )
}

/// The count of the date that `chrono` reads from the key, as seen on `today`;
/// nothing for a key it does not read.
pub open spec fn days_until_key(date_key: Seq<char>, today: (i32, u32, u32)) -> Option<u64> {
    match chrono_parsed_date(date_key, DATE_KEY_FORMAT@) {
        Some(target) => days_until_date(target, today),
        None => None,
    }
}

proof fn lemma_chrono_day_bound(date: (i32, u32, u32))
    requires
        is_chrono_date(date),
    ensures
        -1_000_000_000 <= julian_day(date.0 as int, date.1 as int, date.2 as int) <= 1_000_000_000,
{
}

/// The count of `target` as seen on `today`.
pub fn countdown_days(target: (i32, u32, u32), today: (i32, u32, u32)) -> (r: Option<u64>)
    requires
        is_chrono_date(target),
        is_chrono_date(today),
    ensures
        r == days_until_date(target, today),
        r is Some <==> julian_day(target.0 as int, target.1 as int, target.2 as int) > julian_day(
            today.0 as int,
            today.1 as int,
            today.2 as int,
        ),
        r matches Some(n) ==> n == julian_day(target.0 as int, target.1 as int, target.2 as int)
            - julian_day(today.0 as int, today.1 as int, today.2 as int) + 1,
{
    proof {
        lemma_chrono_day_bound(target);
        lemma_chrono_day_bound(today);
    }
    let diff = days_between(target, today);
    if diff > 0 {
        Some(diff as u64 + 1)
    } else {
        None
    }
}

/// Every date after today gets a count, however far ahead it lies: one more
/// than the number of days between them.
pub proof fn lemma_future_date_counted(target: (i32, u32, u32), today: (i32, u32, u32))
    requires
        is_chrono_date(target),
        is_chrono_date(today),
        julian_day(target.0 as int, target.1 as int, target.2 as int) > julian_day(
            today.0 as int,
            today.1 as int,
            today.2 as int,
        ),
    ensures
        days_until_date(target, today) matches Some(n) && n == julian_day(
            target.0 as int,
            target.1 as int,
            target.2 as int,
        ) - julian_day(today.0 as int, today.1 as int, today.2 as int) + 1,
{
    lemma_chrono_day_bound(target);
    lemma_chrono_day_bound(today);
}

/// Today and past dates get no count.
pub proof fn lemma_past_date_not_counted(target: (i32, u32, u32), today: (i32, u32, u32))
    requires
        julian_day(target.0 as int, target.1 as int, target.2 as int) <= julian_day(
            today.0 as int,
            today.1 as int,
            today.2 as int,
        ),
    ensures
        days_until_date(target, today) is None,
{
}

/// The number of days until the date named by `date_key` (`YYYYMMDD`), as
/// seen on `today`; nothing if the date is today or past or the key is not a date.
pub fn days_until_on(date_key: &str, today: (i32, u32, u32)) -> (r: Option<u64>)
    requires
        is_chrono_date(today),
    ensures
        r == days_until_key(date_key@, today),
{
    match parse_date(date_key, DATE_KEY_FORMAT) {
        Some(target) => countdown_days(target, today),
        None => None,
    }
}

/// The number of days until the date named by `date_key` (`YYYYMMDD`), as
/// seen on the machine's local today.
pub fn days_until(date_key: &str) -> (r: Option<u64>)
    ensures
        exists|today: (i32, u32, u32)| is_chrono_date(today) && r == days_until_key(date_key@, today),
        chrono_parsed_date(date_key@, DATE_KEY_FORMAT@) is None ==> r is None,
{
    let today = local_today();
    days_until_on(date_key, today)
}

/// For one date seen on one day, the bot counts one more than the day
/// difference that the web page shows as "N days", and neither counts a date
/// that is today or past.
pub proof fn lemma_bot_count_matches_page(target: (i32, u32, u32), today: (i32, u32, u32))
    requires
        is_chrono_date(target),
        is_chrono_date(today),
    ensures
        days_until_date(target, today) == countdown_of(
            countdown_diff(
                target.0 as i64,
                target.1 as i64,
                target.2 as i64,
                today.0 as i64,
                today.1 as i64,
                today.2 as i64,
            ),
        ),
{
}

/// The reply that points a user to mentioning the bot.
pub const HELP_REPLY: &'static str = "I see a request for help, just <AT> me";

/// The reply when the dates could not be listed.
pub const LOAD_ERROR_REPLY: &'static str = "Error loading dates directory.";

/// The text of one countdown line.
pub open spec fn countdown_line_text(days: u64, label: Seq<char>) -> Seq<char> {
    decimal(days as nat) + " days until "@ + trimmed(label)
}

/// `"N days until LABEL"`, with the label's surrounding white space removed.
pub fn countdown_line(days: u64, label: &str) -> (r: String)
    ensures
        r@ == countdown_line_text(days, label@),
{
    let mut s = String::new();
    push_decimal(&mut s, days);
    s.append(" days until ");
    s.append(trim(label));
    s
}

/// The message that reports the media count read from its file.
pub fn media_message(contents: &str) -> (r: String)
    ensures
        r@ == "Media Count :\n"@ + contents@,
{
    let mut s = "Media Count :\n".to_owned();
    s.append(contents);
    s
}

/// The countdown lines of `entries`, in order, for the dates still ahead.
pub open spec fn countdown_lines(entries: Seq<DateEntry>, today: (i32, u32, u32)) -> Seq<Seq<char>>
    decreases entries.len(),
{
    if entries.len() == 0 {
        Seq::empty()
    } else {
        let earlier = countdown_lines(entries.drop_last(), today);
        match days_until_key(entries.last().key@, today) {
            Some(days) => earlier.push(countdown_line_text(days, entries.last().label@)),
            None => earlier,
        }
    }
}

/// The entry's date lies ahead of `today`.
pub open spec fn is_upcoming(e: DateEntry, today: (i32, u32, u32)) -> bool {
    days_until_key(e.key@, today) is Some
}

/// Adding an entry keeps every line of the entries before it, in place, and
/// adds at most one line, exactly when the new entry lies ahead.
pub proof fn lemma_countdown_lines_grow(entries: Seq<DateEntry>, e: DateEntry, today: (i32, u32, u32))
    ensures
        countdown_lines(entries.push(e), today).len() == countdown_lines(entries, today).len() + (
        if is_upcoming(e, today) {
            1int
        } else {
            0int
        }),
        countdown_lines(entries.push(e), today).subrange(0, countdown_lines(entries, today).len() as int)
            == countdown_lines(entries, today),
{
    let s = entries.push(e);
    assert(s.drop_last() =~= entries);
    assert(s.last() == e);
    let prev = countdown_lines(entries, today);
    assert(countdown_lines(s, today).subrange(0, prev.len() as int) =~= prev);
}

/// There is one line per entry whose date lies ahead of `today`.
pub proof fn lemma_countdown_lines_count(entries: Seq<DateEntry>, today: (i32, u32, u32))
    ensures
        countdown_lines(entries, today).len() == entries.filter(|e: DateEntry| is_upcoming(e, today)).len(),
    decreases entries.len(),
{
    reveal_with_fuel(Seq::<_>::filter, 1);
    if entries.len() > 0 {
        lemma_countdown_lines_count(entries.drop_last(), today);
    }
}

/// Each entry whose date lies ahead of `today` has its line among the lines.
pub proof fn lemma_countdown_lines_announce(entries: Seq<DateEntry>, today: (i32, u32, u32), i: int)
    requires
        0 <= i < entries.len(),
        days_until_key(entries[i].key@, today) is Some,
    ensures
        countdown_lines(entries, today).contains(
            countdown_line_text(days_until_key(entries[i].key@, today)->0, entries[i].label@),
        ),
    decreases entries.len(),
{
    let line = countdown_line_text(days_until_key(entries[i].key@, today)->0, entries[i].label@);
    let prev = countdown_lines(entries.drop_last(), today);
    let all = countdown_lines(entries, today);
    if i == entries.len() - 1 {
        assert(all == prev.push(line));
        assert(all[prev.len() as int] == line);
    } else {
        assert(entries.drop_last()[i] == entries[i]);
        lemma_countdown_lines_announce(entries.drop_last(), today, i);
        let k = choose|k: int| 0 <= k < prev.len() && prev[k] == line;
        lemma_countdown_lines_grow(entries.drop_last(), entries.last(), today);
        assert(entries.drop_last().push(entries.last()) =~= entries);
        assert(all.subrange(0, prev.len() as int)[k] == line);
        assert(all[k] == line);
    }
}

/// One line per date of the table that lies ahead of `today`, in table order.
pub fn countdown_messages(table: &DateTable, today: (i32, u32, u32)) -> (r: Vec<String>)
    requires
        is_chrono_date(today),
    ensures
        r@.map_values(|s: String| s@) == countdown_lines(table.spec_entries(), today),
{
    let entries = table.entries();
    let mut out: Vec<String> = Vec::new();
    let mut i: usize = 0;
    while i < entries.len()
        invariant
            entries@ == table.spec_entries(),
            i <= entries@.len(),
            is_chrono_date(today),
            out@.map_values(|s: String| s@) == countdown_lines(entries@.take(i as int), today),
        decreases entries@.len() - i,
    {
        let entry = &entries[i];
        assert(entries@.take(i + 1).drop_last() =~= entries@.take(i as int));
        match days_until_on(entry.key.as_str(), today) {
            Some(days) => {
                let line = countdown_line(days, entry.label.as_str());
                out.push(line);
                assert(out@.map_values(|s: String| s@) =~= countdown_lines(entries@.take(i as int), today).push(line@));
            },
            None => {},
        }
        i = i + 1;
    }
    assert(entries@.take(entries@.len() as int) =~= entries@);
    out
}

/// What the bot does with a message.
#[derive(Clone, Copy, Debug, PartialEq, Eq, Structural)]
pub enum Reply {
    /// Send the help hint.
    Help,
    /// Send one line per date still ahead, then the media count.
    Countdowns,
}

/// The message is the bare word "countdown", in any ASCII case.
pub open spec fn is_help_request(content: &str) -> bool {
    eq_ignoring_ascii_case(content.spec_bytes(), "countdown".spec_bytes())
}

/// The replies, in order: a bare "countdown" is answered with the hint once,
/// mentioned or not; any other message that mentions the bot gets the
/// countdowns; the rest gets nothing.
pub open spec fn planned_replies(help_request: bool, mentioned: bool) -> Seq<Reply> {
    if help_request {
        seq![Reply::Help]
    } else if mentioned {
        seq![Reply::Countdowns]
    } else {
        Seq::empty()
    }
}

/// A bare "countdown" gets the hint exactly once, mentioned or not; any other
/// message that mentions the bot gets the countdowns; nothing else gets a reply.
pub proof fn lemma_reply_plan(help_request: bool, mentioned: bool)
    ensures
        help_request ==> planned_replies(help_request, mentioned) == seq![Reply::Help],
        !help_request && mentioned ==> planned_replies(help_request, mentioned) == seq![Reply::Countdowns],
        !help_request && !mentioned ==> planned_replies(help_request, mentioned).len() == 0,
{
}

/// The bot, known by its user id.
pub struct Handler {
    pub client_id: String,
}

impl Handler {
    /// Some mentioned user id, written in decimal, is the bot's id.
    pub open spec fn is_mentioned(&self, mention_ids: Seq<u64>) -> bool {
        exists|i: int| 0 <= i < mention_ids.len() && decimal(#[trigger] mention_ids[i] as nat) == self.client_id@
    }

    /// The bot is mentioned whenever its id stands anywhere in the mention list.
    pub proof fn lemma_mentioned_anywhere(&self, mention_ids: Seq<u64>, i: int)
        requires
            0 <= i < mention_ids.len(),
            decimal(mention_ids[i] as nat) == self.client_id@,
        ensures
            self.is_mentioned(mention_ids),
    {
    }

    /// The bot is not mentioned when no id of the list is its own.
    pub proof fn lemma_not_mentioned(&self, mention_ids: Seq<u64>)
        requires
            forall|i: int| 0 <= i < mention_ids.len() ==> decimal(#[trigger] mention_ids[i] as nat)
                != self.client_id@,
        ensures
            !self.is_mentioned(mention_ids),
    {
    }

    /// Whether the bot is among the mentioned users.
    pub fn mentions_me(&self, mention_ids: &Vec<u64>) -> (r: bool)
        ensures
            r == self.is_mentioned(mention_ids@),
    {
        let mut i: usize = 0;
        while i < mention_ids.len()
            invariant
                i <= mention_ids@.len(),
                forall|k: int| 0 <= k < i ==> decimal(#[trigger] mention_ids@[k] as nat) != self.client_id@,
            decreases mention_ids@.len() - i,
        {
            let mut id = String::new();
            push_decimal(&mut id, mention_ids[i]);
            assert(id@ =~= decimal(mention_ids@[i as int] as nat));
            if id == self.client_id {
                return true;
            }
            i = i + 1;
        }
        false
    }

    /// The replies to a message with text `content` that mentions the users `mention_ids`.
    pub fn replies(&self, content: &str, mention_ids: &Vec<u64>) -> (r: Vec<Reply>)
        ensures
            r@ == planned_replies(is_help_request(content), self.is_mentioned(mention_ids@)),
    {
        let help = eq_ignore_ascii_case(content, "countdown");
        let mentioned = self.mentions_me(mention_ids);
        let mut out: Vec<Reply> = Vec::new();
        if help {
            out.push(Reply::Help);
        } else if mentioned {
            out.push(Reply::Countdowns);
        }
        assert(out@ =~= planned_replies(help, mentioned));
        out
    }
}

} // verus!
