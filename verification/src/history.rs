use vstd::prelude::*;
use vstd::string::StringExecFns;

verus! {

/// Most entries the history log keeps; older entries are dropped first.
pub const HISTORY_LIMIT: usize = 20;

/// A notable event of the simulation, stamped with its tick.
#[derive(Clone, Copy, Debug, PartialEq, Eq)]
pub enum LogEntry {
    IceAgeStarted { tick: u64 },
    IceAgeEnded { tick: u64 },
    PopulationDropped { tick: u64, from: usize, to: usize },
}

/// The log after `entry` is appended, keeping only the newest `HISTORY_LIMIT` entries.
pub open spec fn bounded_push(log: Seq<LogEntry>, entry: LogEntry) -> Seq<LogEntry> {
    let grown = log.push(entry);
    if grown.len() > HISTORY_LIMIT {
        grown.drop_first()
    } else {
        grown
    }
}

/// Appends `entry` to the log and drops the oldest entry when the log
/// outgrows `HISTORY_LIMIT`.
pub fn push_bounded(log: &mut Vec<LogEntry>, entry: LogEntry)
    ensures
        final(log)@ == bounded_push(old(log)@, entry),
        old(log)@.len() <= HISTORY_LIMIT ==> final(log)@.len() <= HISTORY_LIMIT,
        final(log)@.last() == entry,
{
    log.push(entry);
    if log.len() > HISTORY_LIMIT {
        log.remove(0);
    }
}

/// The decimal digit `d` as a character.
pub open spec fn digit_char(d: nat) -> char {
    (48 + d) as char
}

/// Decimal representation of `n`, without leading zeros.
pub open spec fn decimal(n: nat) -> Seq<char>
    decreases n,
{
    if n < 10 {
        seq![digit_char(n)]
    } else {
        decimal(n / 10).push(digit_char(n % 10))
    }
}

/// The number a string of decimal digits reads as, most significant first.
pub open spec fn digits_value(s: Seq<char>) -> int
    decreases s.len(),
{
    if s.len() == 0 {
        0
    } else {
        digits_value(s.drop_last()) * 10 + (s.last() as int - '0' as int)
    }
}

/// Decimal text reads back as the number it was written from: every
/// character is one of '0'..='9', there is at least one, a number of two
/// digits or more does not start with '0', and reading the digits in base 10
/// gives `n`.
pub proof fn lemma_decimal_reads_back(n: nat)
    ensures
        decimal(n).len() >= 1,
        forall|i: int|
            0 <= i < decimal(n).len() ==> '0' <= #[trigger] decimal(n)[i] && decimal(n)[i] <= '9',
        n >= 10 ==> decimal(n)[0] != '0',
        digits_value(decimal(n)) == n,
    decreases n,
{
    if n < 10 {
        assert(decimal(n) =~= seq![digit_char(n)]);
        assert(seq![digit_char(n)].drop_last() =~= Seq::<char>::empty());
        assert(digit_char(n) as int == 48 + n);
        assert('0' as int == 48);
        assert(digits_value(Seq::<char>::empty()) == 0);
        assert(digits_value(decimal(n)) == digits_value(Seq::<char>::empty()) * 10 + (digit_char(n) as int - '0' as int));
    } else {
        let q = n / 10;
        let d = n % 10;
        lemma_decimal_reads_back(q);
        let dq = decimal(q);
        assert(decimal(n) == dq.push(digit_char(d)));
        assert(dq.push(digit_char(d)).drop_last() =~= dq);
        assert(digit_char(d) as int == 48 + d);
        assert forall|i: int| 0 <= i < decimal(n).len() implies '0' <= #[trigger] decimal(n)[i]
            && decimal(n)[i] <= '9' by {
            if i < dq.len() {
                assert(decimal(n)[i] == dq[i]);
            }
        }
        assert(decimal(n)[0] == dq[0]);
        if q < 10 {
            assert(dq[0] == digit_char(q));
            assert(digit_char(q) as int == 48 + q);
        }
        assert('0' as int == 48);
        assert(digits_value(decimal(n)) == digits_value(dq) * 10 + (digit_char(d) as int - '0' as int));
        assert(n == q * 10 + d);
    }
}

/// Text of a log entry, as shown to the user.
pub open spec fn entry_text(entry: LogEntry) -> Seq<char> {
    match entry {
        LogEntry::IceAgeStarted { tick } => decimal(tick as nat) + ": Ice Age started (tick "@
            + decimal(tick as nat) + ")"@,
        LogEntry::IceAgeEnded { tick } => decimal(tick as nat) + ": Ice Age ended (tick "@
            + decimal(tick as nat) + ")"@,
        LogEntry::PopulationDropped { tick, from, to } => decimal(tick as nat)
            + ": Population dropped from "@ + decimal(from as nat) + " to "@ + decimal(to as nat),
    }
}

/// The decimal digit `d` as a one-character string.
fn digit_str(d: u64) -> (s: &'static str)
    requires
        d < 10,
    ensures
        s@ == seq![digit_char(d as nat)],
{
    proof {
        reveal_strlit("0");
        reveal_strlit("1");
        reveal_strlit("2");
        reveal_strlit("3");
        reveal_strlit("4");
        reveal_strlit("5");
        reveal_strlit("6");
        reveal_strlit("7");
        reveal_strlit("8");
        reveal_strlit("9");
    }
    if d == 0 {
        "0"
    } else if d == 1 {
        "1"
    } else if d == 2 {
        "2"
    } else if d == 3 {
        "3"
    } else if d == 4 {
        "4"
    } else if d == 5 {
        "5"
    } else if d == 6 {
        "6"
    } else if d == 7 {
        "7"
    } else if d == 8 {
        "8"
    } else {
        "9"
    }
}

/// Appends the decimal representation of `n` to `s`.
fn append_decimal(s: &mut String, n: u64)
    ensures
        final(s)@ == old(s)@ + decimal(n as nat),
    decreases n,
{
    if n >= 10 {
        append_decimal(s, n / 10);
        s.append(digit_str(n % 10));
        assert(old(s)@ + decimal((n / 10) as nat) + seq![digit_char((n % 10) as nat)] =~= old(s)@
            + decimal(n as nat));
    } else {
        s.append(digit_str(n));
    }
}

/// Renders "{tick}: Ice Age started (tick {tick})".
fn ice_age_started_text(tick: u64) -> (s: String)
    ensures
        s@ == decimal(tick as nat) + ": Ice Age started (tick "@ + decimal(tick as nat) + ")"@,
{
    let mut s = String::new();
    append_decimal(&mut s, tick);
    s.append(": Ice Age started (tick ");
    append_decimal(&mut s, tick);
    s.append(")");
    assert(s@ =~= decimal(tick as nat) + ": Ice Age started (tick "@ + decimal(tick as nat) + ")"@);
    s
}

/// Renders "{tick}: Ice Age ended (tick {tick})".
fn ice_age_ended_text(tick: u64) -> (s: String)
    ensures
        s@ == decimal(tick as nat) + ": Ice Age ended (tick "@ + decimal(tick as nat) + ")"@,
{
    let mut s = String::new();
    append_decimal(&mut s, tick);
    s.append(": Ice Age ended (tick ");
    append_decimal(&mut s, tick);
    s.append(")");
    assert(s@ =~= decimal(tick as nat) + ": Ice Age ended (tick "@ + decimal(tick as nat) + ")"@);
    s
}

/// Renders "{tick}: Population dropped from {from} to {to}".
fn population_dropped_text(tick: u64, from: usize, to: usize) -> (s: String)
    ensures
        s@ == decimal(tick as nat) + ": Population dropped from "@ + decimal(from as nat) + " to "@
            + decimal(to as nat),
{
    let mut s = String::new();
    append_decimal(&mut s, tick);
    s.append(": Population dropped from ");
    append_decimal(&mut s, from as u64);
    s.append(" to ");
    append_decimal(&mut s, to as u64);
    assert(s@ =~= decimal(tick as nat) + ": Population dropped from "@ + decimal(from as nat)
        + " to "@ + decimal(to as nat));
    s
}

impl LogEntry {
    /// Text of the entry, as shown to the user.
    pub fn message(&self) -> (s: String)
        ensures
            s@ == entry_text(*self),
    {
        match *self {
            LogEntry::IceAgeStarted { tick } => ice_age_started_text(tick),
            LogEntry::IceAgeEnded { tick } => ice_age_ended_text(tick),
            LogEntry::PopulationDropped { tick, from, to } => population_dropped_text(tick, from, to),
        }
    }
}

/// The lines joined, one newline between consecutive lines.
pub open spec fn joined(lines: Seq<Seq<char>>) -> Seq<char>
    decreases lines.len(),
{
    if lines.len() == 0 {
        Seq::empty()
    } else if lines.len() == 1 {
        lines[0]
    } else {
        joined(lines.drop_last()) + "\n"@ + lines.last()
    }
}

/// The whole log as text, one entry per line, oldest first.
pub fn log_text(log: &Vec<LogEntry>) -> (s: String)
    ensures
        s@ == joined(log@.map_values(|e: LogEntry| entry_text(e))),
{
    let mut lines: Vec<String> = Vec::new();
    let mut k: usize = 0;
    while k < log.len()
        invariant
            k <= log@.len(),
            lines@.len() == k,
            forall|m: int| 0 <= m < k ==> #[trigger] lines@[m]@ == entry_text(log@[m]),
        decreases log.len() - k,
    {
        lines.push(log[k].message());
        k = k + 1;
    }
    let ghost texts = log@.map_values(|e: LogEntry| entry_text(e));
    let mut out = String::new();
    let mut m: usize = 0;
    while m < lines.len()
        invariant
            m <= lines@.len(),
            lines@.len() == log@.len(),
            texts == log@.map_values(|e: LogEntry| entry_text(e)),
            forall|j: int| 0 <= j < lines@.len() ==> #[trigger] lines@[j]@ == entry_text(log@[j]),
            out@ == joined(texts.take(m as int)),
        decreases lines.len() - m,
    {
        proof {
            reveal_strlit("\n");
            assert(texts.take(m + 1).drop_last() =~= texts.take(m as int));
            assert(texts.take(m + 1).last() == lines@[m as int]@);
        }
        if m > 0 {
            out.append("\n");
        }
        out.append(lines[m].as_str());
        proof {
            if m == 0 {
                assert(out@ =~= joined(texts.take(1)));
            } else {
                assert(out@ =~= joined(texts.take(m + 1)));
            }
        }
        m = m + 1;
    }
    assert(texts.take(m as int) =~= texts);
    out
}

} // verus!
