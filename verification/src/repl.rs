use vstd::prelude::*;
use vstd::string::{StringExecFns, StrSliceExecFns};
use crate::parser::is_white_space;

verus! {

/// A key the client reads.
pub enum KeyInput {
    Char(char),
    Backspace,
    Enter,
    Esc,
    Other,
}

/// The client's state: the line being typed and the log shown below it.
pub struct ReplState {
    pub input: String,
    pub logs: Vec<String>,
}

/// `s` without its leading white space.
pub open spec fn trim_front(s: Seq<char>) -> Seq<char>
    decreases s.len(),
{
    if s.len() > 0 && is_white_space(s[0]) {
        trim_front(s.drop_first())
    } else {
        s
    }
}

/// `s` without its trailing white space.
pub open spec fn trim_back(s: Seq<char>) -> Seq<char>
    decreases s.len(),
{
    if s.len() > 0 && is_white_space(s.last()) {
        trim_back(s.drop_last())
    } else {
        s
    }
}

/// `s` without leading or trailing white space.
pub open spec fn trimmed(s: Seq<char>) -> Seq<char> {
    trim_back(trim_front(s))
}

/// Whether the line asks to leave: `exit` or `quit`, white space aside.
pub open spec fn asks_to_leave(line: Seq<char>) -> bool {
    trimmed(line) == "exit"@ || trimmed(line) == "quit"@
}

/// The log line that reports running `line`.
pub open spec fn executing_text(line: Seq<char>) -> Seq<char> {
    "Executing: "@ + line
}

/// The log line that reports a statement's success.
pub open spec fn success_text() -> Seq<char> {
    "Success. (0 rows affected)"@
}

/// The log line that opens a session on the database at `path`.
pub open spec fn connected_text(path: Seq<char>) -> Seq<char> {
    "Connected to database at: "@ + path
}

/// The view of each log line.
pub open spec fn log_texts(logs: Seq<String>) -> Seq<Seq<char>> {
    logs.map_values(|l: String| l@)
}

/// Whether `w` equals the characters `a..b` of `s`.
fn range_is(s: &String, a: usize, b: usize, w: &str) -> (r: bool)
    requires
        a <= b <= s@.len(),
    ensures
        r == (s@.subrange(a as int, b as int) == w@),
{
    let n = w.unicode_len();
    if b - a != n {
        return false;
    }
    let mut i: usize = 0;
    while i < n
        invariant
            i <= n,
            n == w@.len(),
            b - a == n,
            a <= b <= s@.len(),
            forall|k: int| 0 <= k < i ==> s@[a + k] == w@[k],
        decreases n - i,
    {
        if s.as_str().get_char(a + i) != w.get_char(i) {
            assert(s@.subrange(a as int, b as int)[i as int] != w@[i as int]);
            return false;
        }
        i = i + 1;
    }
    assert(s@.subrange(a as int, b as int) =~= w@);
    true
}

/// Where the trimmed line starts and ends.
fn trim_bounds(s: &String) -> (r: (usize, usize))
    ensures
        r.0 <= r.1 <= s@.len(),
        trimmed(s@) == s@.subrange(r.0 as int, r.1 as int),
{
    let n = s.as_str().unicode_len();
    let mut a: usize = 0;
    assert(s@.subrange(0, n as int) =~= s@);
    while a < n && crate::parser::char_is_whitespace(s.as_str().get_char(a))
        invariant
            a <= n,
            n == s@.len(),
            trim_front(s@) == trim_front(s@.subrange(a as int, n as int)),
        decreases n - a,
    {
        assert(s@.subrange(a as int, n as int).drop_first() =~= s@.subrange(a + 1, n as int));
        a = a + 1;
    }
    assert(trim_front(s@) == s@.subrange(a as int, n as int));
    let mut b: usize = n;
    while b > a && crate::parser::char_is_whitespace(s.as_str().get_char(b - 1))
        invariant
            a <= b <= n,
            n == s@.len(),
            trimmed(s@) == trim_back(s@.subrange(a as int, b as int)),
        decreases b - a,
    {
        assert(s@.subrange(a as int, b as int).drop_last() =~= s@.subrange(a as int, b - 1));
        b = b - 1;
    }
    (a, b)
}

/// The client's first state: an empty line and the line that names the
/// database.
pub fn initial_state(db_path: &str) -> (r: ReplState)
    ensures
        r.input@ == Seq::<char>::empty(),
        log_texts(r.logs@) == seq![connected_text(db_path@)],
{
    let line = String::from_str("Connected to database at: ").concat(db_path);
    let mut logs: Vec<String> = Vec::new();
    logs.push(line);
    assert(log_texts(logs@) =~= seq![connected_text(db_path@)]);
    ReplState { input: String::new(), logs }
}

/// Handles one key and says whether the client leaves. A character is added
/// to the line and Backspace takes the last one off; Enter leaves on `exit`
/// or `quit`, and otherwise logs the line as run and clears it; Esc leaves;
/// any other key changes nothing.
pub fn handle_key(state: &mut ReplState, key: KeyInput) -> (exit: bool)
    ensures
        match key {
            KeyInput::Char(c) => !exit && final(state).input@ == old(state).input@.push(c)
                && final(state).logs@ == old(state).logs@,
            KeyInput::Backspace => !exit && final(state).input@ == (if old(state).input@.len() > 0 {
                old(state).input@.drop_last()
            } else {
                old(state).input@
            }) && final(state).logs@ == old(state).logs@,
            KeyInput::Enter => {
                &&& exit == asks_to_leave(old(state).input@)
                &&& exit ==> final(state).input@ == old(state).input@ && final(state).logs@ == old(state).logs@
                &&& !exit ==> {
                    &&& final(state).input@ == Seq::<char>::empty()
                    &&& log_texts(final(state).logs@) == log_texts(old(state).logs@).push(
                        executing_text(old(state).input@),
                    ).push(success_text())
                }
            },
            KeyInput::Esc => exit && final(state).input@ == old(state).input@ && final(state).logs@
                == old(state).logs@,
            KeyInput::Other => !exit && final(state).input@ == old(state).input@ && final(state).logs@
                == old(state).logs@,
        },
{
    match key {
        KeyInput::Char(c) => {
            state.input.push(c);
            false
        },
        KeyInput::Backspace => {
            let n = state.input.as_str().unicode_len();
            if n > 0 {
                let mut shorter = String::new();
                let mut i: usize = 0;
                while i < n - 1
                    invariant
                        i <= n - 1,
                        n == state.input@.len(),
                        shorter@ == state.input@.subrange(0, i as int),
                    decreases n - 1 - i,
                {
                    shorter.push(state.input.as_str().get_char(i));
                    assert(shorter@ =~= state.input@.subrange(0, i + 1));
                    i = i + 1;
                }
                assert(shorter@ =~= state.input@.drop_last());
                state.input = shorter;
            }
            false
        },
        KeyInput::Enter => {
            let (a, b) = trim_bounds(&state.input);
            if range_is(&state.input, a, b, "exit") || range_is(&state.input, a, b, "quit") {
                return true;
            }
            let ghost before = log_texts(state.logs@);
            let line = String::from_str("Executing: ").concat(state.input.as_str());
            state.logs.push(line);
            state.logs.push(String::from_str("Success. (0 rows affected)"));
            assert(log_texts(state.logs@) =~= before.push(executing_text(old(state).input@)).push(
                success_text(),
            ));
            state.input = String::new();
            false
        },
        KeyInput::Esc => true,
        KeyInput::Other => false,
    }
}

} // verus!
