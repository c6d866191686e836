//! Reading the operator's commands: `r` or `refresh`, `q` or `quit`, in any
//! case and with blanks around them. Anything else is no command, and the
//! operator is asked again.
use vstd::prelude::*;
use vstd::string::*;
use crate::resolver::Command;

verus! {

/// A blank: space, tab, line feed, carriage return, vertical tab or form feed.
pub open spec fn is_blank(c: char) -> bool {
    c == ' ' || c == '\t' || c == '\n' || c == '\r' || c == '\x0B' || c == '\x0C'
}

/// `s` without its leading blanks.
pub open spec fn trim_start(s: Seq<char>) -> Seq<char>
    decreases s.len(),
{
    if s.len() > 0 && is_blank(s[0]) {
        trim_start(s.drop_first())
    } else {
        s
    }
}

/// `s` without its trailing blanks.
pub open spec fn trim_end(s: Seq<char>) -> Seq<char>
    decreases s.len(),
{
    if s.len() > 0 && is_blank(s.last()) {
        trim_end(s.drop_last())
    } else {
        s
    }
}

/// `t` spells the word whose letters are `lower` (or `upper`, letter by
/// letter).
pub open spec fn spells(t: Seq<char>, lower: Seq<char>, upper: Seq<char>) -> bool {
    t.len() == lower.len() && forall|i: int|
        0 <= i < t.len() ==> #[trigger] t[i] == lower[i] || t[i] == upper[i]
}

/// The command that a line of input gives, if any.
pub open spec fn command_of(line: Seq<char>) -> Option<Command> {
    let t = trim_end(trim_start(line));
    if spells(t, seq!['r'], seq!['R']) || spells(
        t,
        seq!['r', 'e', 'f', 'r', 'e', 's', 'h'],
        seq!['R', 'E', 'F', 'R', 'E', 'S', 'H'],
    ) {
        Some(Command::Refresh)
    } else if spells(t, seq!['q'], seq!['Q']) || spells(
        t,
        seq!['q', 'u', 'i', 't'],
        seq!['Q', 'U', 'I', 'T'],
    ) {
        Some(Command::Quit)
    } else {
        None
    }
}

fn blank(c: char) -> (r: bool)
    ensures
        r == is_blank(c),
{
    c == ' ' || c == '\t' || c == '\n' || c == '\r' || c == '\x0B' || c == '\x0C'
}

/// Whether `line[lo..hi]` spells the word `lower` / `upper`.
fn spells_at(line: &str, lo: usize, hi: usize, lower: &str, upper: &str) -> (r: bool)
    requires
        lo <= hi <= line@.len(),
        lower@.len() == upper@.len(),
    ensures
        r == spells(line@.subrange(lo as int, hi as int), lower@, upper@),
{
    let len = lower.unicode_len();
    if hi - lo != len {
        return false;
    }
    let ghost t = line@.subrange(lo as int, hi as int);
    let mut k: usize = 0;
    while k < len
        invariant
            k <= len,
            len == lower@.len(),
            len == upper@.len(),
            hi - lo == len,
            lo <= hi <= line@.len(),
            t == line@.subrange(lo as int, hi as int),
            forall|i: int| 0 <= i < k ==> #[trigger] t[i] == lower@[i] || t[i] == upper@[i],
        decreases len - k,
    {
        let c = line.get_char(lo + k);
        if c != lower.get_char(k) && c != upper.get_char(k) {
            assert(t[k as int] == c);
            return false;
        }
        k = k + 1;
    }
    true
}

/// The answer that a line of input gives to a yes/no question, if any.
pub open spec fn confirmation_of(line: Seq<char>) -> Option<bool> {
    let t = trim_end(trim_start(line));
    if spells(t, seq!['y'], seq!['Y']) {
        Some(true)
    } else if spells(t, seq!['n'], seq!['N']) {
        Some(false)
    } else {
        None
    }
}

/// The bounds of `line` without its leading and trailing blanks.
fn trimmed_bounds(line: &str) -> (r: (usize, usize))
    ensures
        r.0 <= r.1 <= line@.len(),
        trim_end(trim_start(line@)) == line@.subrange(r.0 as int, r.1 as int),
{
    let n = line.unicode_len();
    let ghost s = line@;
    let mut lo: usize = 0;
    assert(s.subrange(0, n as int) =~= s);
    while lo < n && blank(line.get_char(lo))
        invariant
            lo <= n,
            n == s.len(),
            s == line@,
            trim_start(s) == trim_start(s.subrange(lo as int, n as int)),
        decreases n - lo,
    {
        assert(s.subrange(lo as int, n as int).drop_first() =~= s.subrange(lo + 1, n as int));
        lo = lo + 1;
    }
    let mut hi: usize = n;
    while hi > lo && blank(line.get_char(hi - 1))
        invariant
            lo <= hi <= n,
            n == s.len(),
            s == line@,
            trim_start(s) == s.subrange(lo as int, n as int),
            trim_end(trim_start(s)) == trim_end(s.subrange(lo as int, hi as int)),
        decreases hi - lo,
    {
        assert(s.subrange(lo as int, hi as int).drop_last() =~= s.subrange(lo as int, hi - 1));
        hi = hi - 1;
    }
    (lo, hi)
}

/// Reads a yes (`y`) or no (`n`) answer from one line of input; `None` where
/// the line is neither.
pub fn parse_confirmation(line: &str) -> (r: Option<bool>)
    ensures
        r == confirmation_of(line@),
{
    let (lo, hi) = trimmed_bounds(line);
    proof {
        reveal_strlit("y");
        reveal_strlit("Y");
        reveal_strlit("n");
        reveal_strlit("N");
    }
    if spells_at(line, lo, hi, "y", "Y") {
        Some(true)
    } else if spells_at(line, lo, hi, "n", "N") {
        Some(false)
    } else {
        None
    }
}

/// Reads a command from one line of input; `None` where the line is no
/// command.
pub fn parse_command(line: &str) -> (r: Option<Command>)
    ensures
        r == command_of(line@),
{
    let (lo, hi) = trimmed_bounds(line);
    proof {
        reveal_strlit("r");
        reveal_strlit("R");
        reveal_strlit("refresh");
        reveal_strlit("REFRESH");
        reveal_strlit("q");
        reveal_strlit("Q");
        reveal_strlit("quit");
        reveal_strlit("QUIT");
    }
    if spells_at(line, lo, hi, "r", "R") || spells_at(line, lo, hi, "refresh", "REFRESH") {
        Some(Command::Refresh)
    } else if spells_at(line, lo, hi, "q", "Q") || spells_at(line, lo, hi, "quit", "QUIT") {
        Some(Command::Quit)
    } else {
        None
    }
}

} // verus!
