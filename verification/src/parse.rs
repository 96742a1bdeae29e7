//! The command parser: one line of input becomes an action keyword and a
//! free-text argument.
//!
//! A line is split at its first `:`. The text before it, lower-cased, is
//! the keyword; the text after it is the argument. A line without a `:`
//! is all keyword and has an empty argument.

use vstd::prelude::*;

use crate::text::chars_eq_text;
use crate::text::chars_text;
use crate::text::text_chars;

verus! {

/// The actions a command line can select.
#[derive(Debug, Clone, Copy, PartialEq, Eq, Structural)]
pub enum ToDoActions {
    Add,
    Process,
    Pause,
    Done,
    Remove,
    Status,
    Help,
    Exit,
    Unknown,
}

/// The text before the first `:` of a line (the whole line if it has none).
pub open spec fn before_colon(s: Seq<char>) -> Seq<char>
    decreases s.len(),
{
    if s.len() == 0 {
        Seq::empty()
    } else if s[0] == ':' {
        Seq::empty()
    } else {
        seq![s[0]] + before_colon(s.skip(1))
    }
}

/// The text after the first `:` of a line (empty if it has none).
pub open spec fn after_colon(s: Seq<char>) -> Seq<char>
    decreases s.len(),
{
    if s.len() == 0 {
        Seq::empty()
    } else if s[0] == ':' {
        s.skip(1)
    } else {
        after_colon(s.skip(1))
    }
}

/// ASCII lower-casing of one character.
pub open spec fn lower_char(c: char) -> char {
    if 65 <= c as u32 && c as u32 <= 90 {
        (((c as u32) + 32) as u8) as char
    } else {
        c
    }
}

/// ASCII lower-casing of a text.
pub open spec fn lower(s: Seq<char>) -> Seq<char> {
    s.map_values(|c: char| lower_char(c))
}

/// The lower-cased keyword of a line.
pub open spec fn key_of(s: Seq<char>) -> Seq<char> {
    lower(before_colon(s))
}

/// The action a lower-cased keyword selects.
pub open spec fn action_of_key(k: Seq<char>) -> ToDoActions {
    if k == "add"@ {
        ToDoActions::Add
    } else if k == "process"@ {
        ToDoActions::Process
    } else if k == "pause"@ {
        ToDoActions::Pause
    } else if k == "done"@ {
        ToDoActions::Done
    } else if k == "remove"@ {
        ToDoActions::Remove
    } else if k == "status"@ {
        ToDoActions::Status
    } else if k == "help"@ {
        ToDoActions::Help
    } else if k == "exit"@ {
        ToDoActions::Exit
    } else {
        ToDoActions::Unknown
    }
}

/// The action a line selects.
pub open spec fn action_of(s: Seq<char>) -> ToDoActions {
    action_of_key(key_of(s))
}

/// If no `:` stands before position `i`, and `i` is either the position of
/// a `:` or the end of the line, then `i` is exactly where the line splits.
proof fn lemma_split_at_colon(s: Seq<char>, i: int)
    requires
        0 <= i <= s.len(),
        forall|j: int| 0 <= j < i ==> s[j] != ':',
        i < s.len() ==> s[i] == ':',
    ensures
        before_colon(s) == s.take(i),
        after_colon(s) == if i < s.len() {
            s.skip(i + 1)
        } else {
            Seq::<char>::empty()
        },
    decreases i,
{
    if i == 0 {
        assert(before_colon(s) =~= s.take(0));
    } else {
        assert(s[0] != ':');
        let t = s.skip(1);
        assert forall|j: int| 0 <= j < i - 1 implies t[j] != ':' by {
            assert(t[j] == s[j + 1]);
        }
        assert(i - 1 < t.len() ==> t[i - 1] == s[i]);
        lemma_split_at_colon(t, i - 1);
        assert(before_colon(s) == seq![s[0]] + t.take(i - 1));
        assert(seq![s[0]] + t.take(i - 1) =~= s.take(i));
        if i < s.len() {
            assert(t.skip(i) =~= s.skip(i + 1));
        }
    }
}

/// Exactly `lower_char`, executably.
fn lower_char_exec(c: char) -> (r: char)
    ensures
        r == lower_char(c),
{
    let n = c as u32;
    if 65 <= n && n <= 90 {
        ((n + 32) as u8) as char
    } else {
        c
    }
}

/// Splits one line into its action and its argument.
pub fn parse_line(input: &str) -> (r: (ToDoActions, String))
    ensures
        r.0 == action_of(input@),
        r.1@ == after_colon(input@),
{
    let chars = text_chars(input);
    let n = chars.len();
    let mut i: usize = 0;
    while i < n && chars[i] != ':'
        invariant
            i <= n,
            n == chars@.len(),
            chars@ == input@,
            forall|j: int| 0 <= j < i ==> chars@[j] != ':',
        decreases n - i,
    {
        i = i + 1;
    }
    proof {
        lemma_split_at_colon(chars@, i as int);
    }
    let mut key: Vec<char> = Vec::new();
    let mut k: usize = 0;
    while k < i
        invariant
            k <= i,
            i <= chars@.len(),
            chars@ == input@,
            key@.len() == k,
            forall|j: int| 0 <= j < k ==> key@[j] == lower_char(chars@[j]),
        decreases i - k,
    {
        key.push(lower_char_exec(chars[k]));
        k = k + 1;
    }
    proof {
        assert(key@ =~= key_of(input@)) by {
            assert(before_colon(input@) == input@.take(i as int));
            assert forall|j: int| 0 <= j < i implies lower(before_colon(input@))[j] == key@[j] by {
                assert(before_colon(input@)[j] == input@[j]);
            }
        }
    }
    let action = if chars_eq_text(&key, "add") {
        ToDoActions::Add
    } else if chars_eq_text(&key, "process") {
        ToDoActions::Process
    } else if chars_eq_text(&key, "pause") {
        ToDoActions::Pause
    } else if chars_eq_text(&key, "done") {
        ToDoActions::Done
    } else if chars_eq_text(&key, "remove") {
        ToDoActions::Remove
    } else if chars_eq_text(&key, "status") {
        ToDoActions::Status
    } else if chars_eq_text(&key, "help") {
        ToDoActions::Help
    } else if chars_eq_text(&key, "exit") {
        ToDoActions::Exit
    } else {
        ToDoActions::Unknown
    };
    let mut arg_chars: Vec<char> = Vec::new();
    if i < n {
        let mut j: usize = i + 1;
        while j < n
            invariant
                i + 1 <= j <= n,
                n == chars@.len(),
                chars@ == input@,
                arg_chars@ == chars@.subrange(i + 1, j as int),
            decreases n - j,
        {
            arg_chars.push(chars[j]);
            j = j + 1;
            proof {
                assert(arg_chars@ =~= chars@.subrange(i + 1, j as int));
            }
        }
        proof {
            assert(chars@.subrange(i + 1, n as int) =~= input@.skip(i + 1));
        }
    }
    let arg = chars_text(&arg_chars);
    (action, arg)
}

} // verus!
