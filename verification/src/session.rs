//! Session activation decisions.
//!
//! Given the chosen project's display label and two observations — whether
//! a session of that name already exists, and whether the caller is itself
//! inside the multiplexer — the activation plan says what to run: create a
//! detached session first when none exists, then either switch the running
//! client or attach from outside.  The label handed to a target argument
//! is escaped for shell safety (`~` becomes `\~`).

use vstd::prelude::*;
use crate::project::is_prefix_of;

verus! {

/// What one character of a label contributes to its escaped form.
pub open spec fn escape_char(c: char) -> Seq<char> {
    if c == '~' {
        seq!['\\', '~']
    } else {
        seq![c]
    }
}

/// The label with every `~` escaped to `\~`.
pub open spec fn escape_spec(s: Seq<char>) -> Seq<char>
    decreases s.len(),
{
    if s.len() == 0 {
        Seq::empty()
    } else {
        escape_spec(s.drop_last()) + escape_char(s.last())
    }
}

/// Escapes a label for use as a command target argument.
pub fn escape_label(label: &str) -> (r: String)
    ensures
        r@ == escape_spec(label@),
{
    let len = label.unicode_len();
    let mut out = String::new();
    let mut i: usize = 0;
    while i < len
        invariant
            i <= len,
            len == label@.len(),
            out@ == escape_spec(label@.take(i as int)),
        decreases len - i,
    {
        let c = label.get_char(i);
        if c == '~' {
            out.append("\\~");
            proof {
                reveal_strlit("\\~");
                assert("\\~"@ =~= seq!['\\', '~']);
            }
        } else {
            out.append(label.substring_char(i, i + 1));
            proof {
                assert(label@.subrange(i as int, i + 1) =~= seq![label@[i as int]]);
            }
        }
        proof {
            assert(label@.take(i + 1).drop_last() =~= label@.take(i as int));
            assert(label@.take(i + 1).last() == label@[i as int]);
        }
        i += 1;
    }
    proof {
        assert(label@.take(len as int) =~= label@);
    }
    out
}

/// True when some listing line reports a session named `name`: the line
/// starts with the name followed by a colon.
pub fn session_listed(lines: &Vec<String>, name: &str) -> (r: bool)
    ensures
        r == exists|i: int|
            0 <= i < lines@.len() && is_prefix_of(name@ + ":"@, lines@[i]@),
{
    let prefix = String::from_str(name).concat(":");
    let mut i: usize = 0;
    while i < lines.len()
        invariant
            i <= lines@.len(),
            prefix@ == name@ + ":"@,
            forall|k: int| 0 <= k < i ==> !is_prefix_of(name@ + ":"@, lines@[k]@),
        decreases lines@.len() - i,
    {
        if crate::project::starts_with_str(lines[i].as_str(), prefix.as_str()) {
            return true;
        }
        i += 1;
    }
    false
}

/// Which connection command reaches the session.
#[derive(Clone, Copy, Debug, PartialEq, Eq, Structural)]
pub enum ConnectMode {
    /// The caller is inside the multiplexer: switch the running client.
    Switch,
    /// The caller is outside: attach, as a fresh outer attach.
    Attach,
}

/// The planned activation of a session.
pub struct ActivationPlan {
    /// The raw session name to create first, absent when it already exists.
    /// Creation failure aborts the activation.
    pub create: Option<String>,
    /// The escaped label handed to the connection command's target.
    pub target: String,
    /// How to connect once the session exists.
    pub mode: ConnectMode,
}

/// Plans the activation of the session named by `label`.
pub fn plan_activation(label: &String, session_exists: bool, inside_multiplexer: bool) -> (p:
    ActivationPlan)
    ensures
        match p.create {
            Some(n) => !session_exists && n@ == label@,
            None => session_exists,
        },
        p.target@ == escape_spec(label@),
        p.mode == (if inside_multiplexer {
            ConnectMode::Switch
        } else {
            ConnectMode::Attach
        }),
{
    let create = if session_exists {
        None
    } else {
        Some(label.clone())
    };
    let target = escape_label(label.as_str());
    let mode = if inside_multiplexer {
        ConnectMode::Switch
    } else {
        ConnectMode::Attach
    };
    ActivationPlan { create, target, mode }
}

} // verus!
