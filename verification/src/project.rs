//! Projects and their display labels.
//!
//! A project is identified by its raw path string.  For presentation and
//! history matching a lossy *display label* is derived from the path: a
//! leading home-directory prefix becomes `~`, a leading alternate-root
//! prefix becomes a short alias, and every literal `.` is removed.  The
//! label is never used for filesystem access.

use vstd::prelude::*;

verus! {

/// A candidate project: an absolute filesystem path, or a live multiplexer
/// session name synthesized into a transient project.
pub struct Project {
    pub path: String,
}

/// `s` with a leading `pre` replaced by `sub`; `s` unchanged when `pre` is
/// not a prefix of `s`.
pub open spec fn replace_prefix_spec(s: Seq<char>, pre: Seq<char>, sub: Seq<char>) -> Seq<char> {
    if pre.len() <= s.len() && s.take(pre.len() as int) == pre {
        sub + s.skip(pre.len() as int)
    } else {
        s
    }
}

/// `s` with every literal `.` removed.
pub open spec fn strip_dots_spec(s: Seq<char>) -> Seq<char> {
    s.filter(|c: char| c != '.')
}

/// The configured alternate root prefix that labels abbreviate.
pub open spec fn alt_root_spec() -> Seq<char> {
    "/run/media/fib/ExternalSSD/code"@
}

/// The alias that stands in for the alternate root prefix.
pub open spec fn alt_alias_spec() -> Seq<char> {
    "code"@
}

/// The display label of a path, given the home-directory prefix: home
/// becomes `~`, the alternate root becomes its alias, dots are stripped.
pub open spec fn label_spec(path: Seq<char>, home: Seq<char>) -> Seq<char> {
    strip_dots_spec(
        replace_prefix_spec(replace_prefix_spec(path, home, "~"@), alt_root_spec(), alt_alias_spec()),
    )
}

/// True when `pre` is a prefix of `s`.
pub open spec fn is_prefix_of(pre: Seq<char>, s: Seq<char>) -> bool {
    pre.len() <= s.len() && s.take(pre.len() as int) == pre
}

/// Decides whether `pre` is a prefix of `s`, character by character.
pub fn starts_with_str(s: &str, pre: &str) -> (r: bool)
    ensures
        r == is_prefix_of(pre@, s@),
{
    let s_len = s.unicode_len();
    let p_len = pre.unicode_len();
    if p_len > s_len {
        assert(!is_prefix_of(pre@, s@));
        return false;
    }
    let mut j: usize = 0;
    while j < p_len
        invariant
            j <= p_len,
            p_len == pre@.len(),
            s_len == s@.len(),
            p_len <= s_len,
            forall|k: int| 0 <= k < j ==> s@[k] == pre@[k],
        decreases p_len - j,
    {
        if s.get_char(j) != pre.get_char(j) {
            assert(s@.take(p_len as int)[j as int] != pre@[j as int]);
            return false;
        }
        j += 1;
    }
    assert(s@.take(p_len as int) =~= pre@);
    true
}

/// `s` with a leading `pre` replaced by `sub`.
pub fn replace_prefix(s: &str, pre: &str, sub: &str) -> (r: String)
    ensures
        r@ == replace_prefix_spec(s@, pre@, sub@),
{
    if starts_with_str(s, pre) {
        let s_len = s.unicode_len();
        let p_len = pre.unicode_len();
        let rest = s.substring_char(p_len, s_len);
        let r = String::from_str(sub).concat(rest);
        assert(s@.skip(p_len as int) =~= s@.subrange(p_len as int, s@.len() as int));
        r
    } else {
        s.to_owned()
    }
}

/// `s` with every literal `.` removed.
pub fn strip_dots(s: &str) -> (r: String)
    ensures
        r@ == strip_dots_spec(s@),
{
    let len = s.unicode_len();
    let mut out = String::new();
    let mut i: usize = 0;
    proof {
        reveal(Seq::filter);
        assert(s@.take(0) =~= Seq::<char>::empty());
    }
    while i < len
        invariant
            i <= len,
            len == s@.len(),
            out@ == s@.take(i as int).filter(|c: char| c != '.'),
        decreases len - i,
    {
        let c = s.get_char(i);
        if c != '.' {
            let piece = s.substring_char(i, i + 1);
            out.append(piece);
        }
        proof {
            reveal(Seq::filter);
            let pred = |c: char| c != '.';
            assert(s@.take(i + 1).drop_last() =~= s@.take(i as int));
            assert(s@.take(i + 1).last() == s@[i as int]);
            if s@[i as int] != '.' {
                assert(s@.subrange(i as int, i + 1) =~= seq![s@[i as int]]);
                assert(s@.take(i + 1).filter(pred) =~= s@.take(i as int).filter(pred) + seq![s@[i as int]]);
            } else {
                assert(s@.take(i + 1).filter(pred) =~= s@.take(i as int).filter(pred));
            }
        }
        i += 1;
    }
    proof {
        assert(s@.take(len as int) =~= s@);
    }
    out
}

impl Project {
    /// Wraps a raw path string into a project.
    pub fn new(path: &str) -> (p: Project)
        ensures
            p.path@ == path@,
    {
        Project { path: path.to_owned() }
    }

    /// The display label of this project for a given home-directory prefix.
    pub fn display_label(&self, home: &str) -> (r: String)
        ensures
            r@ == label_spec(self.path@, home@),
    {
        let step1 = replace_prefix(self.path.as_str(), home, "~");
        let step2 = replace_prefix(step1.as_str(), "/run/media/fib/ExternalSSD/code", "code");
        strip_dots(step2.as_str())
    }

    /// The display label under the calling user's own home prefix: the
    /// label law holds for a witness that is a real home-directory prefix.
    pub fn to_fzf_display(&self) -> (r: String)
        ensures
            exists|home: Seq<char>|
                home.len() >= 6 && home.take(6) == "/home/"@ && r@ == label_spec(
                    self.path@,
                    home,
                ),
    {
        let home = home_prefix();
        let r = self.display_label(home.as_str());
        proof {
            assert(home@.len() >= 6 && home@.take(6) == "/home/"@ && r@ == label_spec(
                self.path@,
                home@,
            ));
        }
        r
    }
}

/// Relies on `whoami::username`: the login name of the calling user, or
/// empty when the platform query fails.  The value depends on the machine
/// and the environment, so nothing is promised of it.
#[verifier::external_body]
fn current_username() -> String {
    whoami::username().unwrap_or_default()
}

/// The home-directory prefix of the calling user.
pub fn home_prefix() -> (r: String)
    ensures
        r@.len() >= 6,
        r@.take(6) == "/home/"@,
{
    let user = current_username();
    let r = String::from_str("/home/").concat(user.as_str());
    proof {
        reveal_strlit("/home/");
        assert(r@.take(6) =~= "/home/"@);
    }
    r
}

} // verus!
