//! Building the candidate project set.
//!
//! Candidates come from three sources, in order: the parsed project list
//! (each depth entry contributes its root followed by the walked
//! subdirectories), then one candidate per live multiplexer session line.
//! The combined sequence is deduplicated by exact path equality, keeping
//! the first occurrence of each path.

use vstd::prelude::*;
use crate::entry::Entry;
use crate::project::Project;

verus! {

/// The paths of a sequence of projects.
pub open spec fn paths_of(ps: Seq<Project>) -> Seq<Seq<char>> {
    ps.map_values(|p: Project| p.path@)
}

/// Keeps the first occurrence of every path, in first-seen order.
pub open spec fn dedup_first(s: Seq<Seq<char>>) -> Seq<Seq<char>>
    decreases s.len(),
{
    if s.len() == 0 {
        Seq::empty()
    } else {
        let d = dedup_first(s.drop_last());
        if d.contains(s.last()) {
            d
        } else {
            d.push(s.last())
        }
    }
}

/// Deduplication never invents or loses a path.
pub proof fn lemma_dedup_first_contains(s: Seq<Seq<char>>, x: Seq<char>)
    ensures
        dedup_first(s).contains(x) <==> s.contains(x),
    decreases s.len(),
{
    if s.len() > 0 {
        lemma_dedup_first_contains(s.drop_last(), x);
        let d = dedup_first(s.drop_last());
        if s.contains(x) {
            let i = choose|i: int| 0 <= i < s.len() && s[i] == x;
            if i < s.len() - 1 {
                assert(s.drop_last()[i] == x);
                assert(s.drop_last().contains(x));
            }
            if d.contains(x) {
                if !d.push(s.last()).contains(x) {
                    let j = choose|j: int| 0 <= j < d.len() && d[j] == x;
                    assert(d.push(s.last())[j] == x);
                }
            } else {
                assert(!s.drop_last().contains(x));
                assert(s.last() == x);
                assert(d.push(x)[d.len() as int] == x);
            }
        } else {
            assert(!s.drop_last().contains(x));
            if d.push(s.last()).contains(x) {
                let j = choose|j: int| 0 <= j < d.len() + 1 && d.push(s.last())[j] == x;
                if j < d.len() {
                    assert(d[j] == x);
                } else {
                    assert(s.last() == x);
                    assert(s[s.len() - 1] == x);
                }
            }
        }
    }
}

/// True when no path occurs twice.
pub open spec fn all_distinct(s: Seq<Seq<char>>) -> bool {
    forall|i: int, j: int| 0 <= i < j < s.len() ==> s[i] != s[j]
}

/// The deduplicated sequence holds no duplicates.
pub proof fn lemma_dedup_first_no_dups(s: Seq<Seq<char>>)
    ensures
        all_distinct(dedup_first(s)),
    decreases s.len(),
{
    if s.len() > 0 {
        lemma_dedup_first_no_dups(s.drop_last());
        let d = dedup_first(s.drop_last());
        if !d.contains(s.last()) {
            assert forall|i: int, j: int|
                0 <= i < j < d.push(s.last()).len() implies d.push(s.last())[i] != d.push(
                s.last(),
            )[j] by {
                if j < d.len() {
                    assert(d[i] != d[j]);
                } else {
                    assert(d.push(s.last())[j] == s.last());
                    assert(d[i] == d.push(s.last())[i]);
                    if d[i] == s.last() {
                        assert(d.contains(s.last()));
                    }
                }
            };
        }
    }
}

/// A sequence without duplicates deduplicates to itself.
pub proof fn lemma_dedup_first_of_unique(s: Seq<Seq<char>>)
    requires
        all_distinct(s),
    ensures
        dedup_first(s) == s,
    decreases s.len(),
{
    if s.len() == 0 {
        assert(dedup_first(s) =~= s);
    } else {
        assert(all_distinct(s.drop_last())) by {
            assert(forall|i: int, j: int|
                0 <= i < j < s.drop_last().len() ==> s.drop_last()[i] == s[i] && s.drop_last()[j]
                    == s[j]);
        };
        lemma_dedup_first_of_unique(s.drop_last());
        if s.drop_last().contains(s.last()) {
            let i = choose|i: int| 0 <= i < s.len() - 1 && s.drop_last()[i] == s.last();
            assert(s[i] == s[s.len() - 1]);
            assert(false);
        }
        assert(dedup_first(s) =~= s.drop_last().push(s.last()));
        assert(s.drop_last().push(s.last()) =~= s);
    }
}

/// Deduplication is idempotent: a second pass changes nothing.
pub proof fn lemma_dedup_first_idempotent(s: Seq<Seq<char>>)
    ensures
        dedup_first(dedup_first(s)) == dedup_first(s),
{
    lemma_dedup_first_no_dups(s);
    lemma_dedup_first_of_unique(dedup_first(s));
}

/// What one parsed entry contributes to the raw candidate sequence: its
/// own path, then (for a depth entry) the walked subdirectory lines.
pub open spec fn entry_contrib(e: Entry, exp: Seq<Seq<char>>) -> Seq<Seq<char>> {
    match e.depth {
        Some(_) => seq![e.path@] + exp,
        None => seq![e.path@],
    }
}

/// The raw candidate paths of all entries, in file order.
pub open spec fn raw_from(entries: Seq<Entry>, exps: Seq<Seq<Seq<char>>>) -> Seq<Seq<char>>
    decreases entries.len(),
{
    if entries.len() == 0 {
        Seq::empty()
    } else {
        raw_from(entries.drop_last(), exps.drop_last()) + entry_contrib(
            entries.last(),
            exps[entries.len() - 1],
        )
    }
}

/// Parses every project-list line in file order.
pub fn parse_project_list(lines: &Vec<String>) -> (r: Vec<Entry>)
    ensures
        r@.len() == lines@.len(),
        forall|i: int|
            0 <= i < r@.len() ==> #[trigger] crate::entry::entry_matches(lines@[i]@, r@[i]),
{
    let mut r: Vec<Entry> = Vec::new();
    let mut i: usize = 0;
    while i < lines.len()
        invariant
            i <= lines@.len(),
            r@.len() == i,
            forall|k: int|
                0 <= k < i ==> #[trigger] crate::entry::entry_matches(lines@[k]@, r@[k]),
        decreases lines@.len() - i,
    {
        let e = crate::entry::parse_entry(lines[i].as_str());
        r.push(e);
        i += 1;
    }
    r
}

/// True when some project in `ps` has path `path`.
pub(crate) fn contains_path(ps: &Vec<Project>, path: &String) -> (r: bool)
    ensures
        r == paths_of(ps@).contains(path@),
{
    let mut i: usize = 0;
    while i < ps.len()
        invariant
            i <= ps@.len(),
            forall|k: int| 0 <= k < i ==> paths_of(ps@)[k] != path@,
        decreases ps@.len() - i,
    {
        if ps[i].path.eq(path) {
            assert(paths_of(ps@)[i as int] == path@);
            return true;
        }
        i += 1;
    }
    false
}

/// Assembles and deduplicates the full candidate sequence.
///
/// `expansions[i]` holds the walked subdirectory lines for entry `i`; it is
/// ignored for entries without a depth.  `session_lines` holds one live
/// session name per line; everything from the first `:` on is dropped.
pub fn assemble_projects(
    entries: &Vec<Entry>,
    expansions: &Vec<Vec<String>>,
    session_lines: &Vec<String>,
) -> (r: Vec<Project>)
    requires
        expansions@.len() == entries@.len(),
    ensures
        paths_of(r@) == dedup_first(
            raw_from(entries@, expansions.deep_view()) + session_names_spec(
                session_lines.deep_view(),
            ),
        ),
        all_distinct(paths_of(r@)),
{
    let mut raw: Vec<Project> = Vec::new();
    let mut i: usize = 0;
    while i < entries.len()
        invariant
            i <= entries@.len(),
            expansions@.len() == entries@.len(),
            paths_of(raw@) == raw_from(entries@.take(i as int), expansions.deep_view().take(i as int)),
        decreases entries@.len() - i,
    {
        let ghost pre = paths_of(raw@);
        raw.push(Project { path: entries[i].path.clone() });
        proof {
            assert(paths_of(raw@) =~= pre.push(entries@[i as int].path@));
        }
        if entries[i].depth.is_some() {
            let exp = &expansions[i];
            proof {
                assert(expansions.deep_view()[i as int] =~= exp.deep_view());
            }
            let mut j: usize = 0;
            while j < exp.len()
                invariant
                    j <= exp@.len(),
                    0 <= i < entries@.len() == expansions@.len(),
                    exp.deep_view() == expansions.deep_view()[i as int],
                    exp@ == expansions@[i as int]@,
                    paths_of(raw@) == raw_from(
                        entries@.take(i as int),
                        expansions.deep_view().take(i as int),
                    ) + seq![entries@[i as int].path@] + exp.deep_view().take(j as int),
                decreases exp@.len() - j,
            {
                let ghost pre2 = paths_of(raw@);
                raw.push(Project { path: exp[j].clone() });
                proof {
                    assert(exp.deep_view()[j as int] == exp@[j as int]@);
                    assert(paths_of(raw@) =~= pre2.push(exp@[j as int]@));
                    assert(exp.deep_view().take(j + 1) =~= exp.deep_view().take(j as int).push(
                        exp@[j as int]@,
                    ));
                }
                j += 1;
            }
            proof {
                assert(exp.deep_view().take(exp@.len() as int) =~= expansions.deep_view()[i as int]);
            }
        }
        proof {
            lemma_raw_from_step(entries@, expansions.deep_view(), i as int);
            assert(paths_of(raw@) =~= raw_from(
                entries@.take(i as int),
                expansions.deep_view().take(i as int),
            ) + entry_contrib(entries@[i as int], expansions.deep_view()[i as int]));
        }
        i += 1;
    }
    proof {
        assert(entries@.take(entries@.len() as int) =~= entries@);
        assert(expansions.deep_view().take(entries@.len() as int) =~= expansions.deep_view());
    }
    let mut s: usize = 0;
    while s < session_lines.len()
        invariant
            s <= session_lines@.len(),
            paths_of(raw@) == raw_from(entries@, expansions.deep_view()) + session_names_spec(
                session_lines.deep_view().take(s as int),
            ),
        decreases session_lines@.len() - s,
    {
        let ghost pre = paths_of(raw@);
        let name = session_name(session_lines[s].as_str());
        raw.push(Project { path: name });
        proof {
            assert(paths_of(raw@) =~= pre.push(
                session_name_spec(session_lines.deep_view()[s as int]),
            ));
            lemma_session_names_step(session_lines.deep_view(), s as int);
        }
        s += 1;
    }
    proof {
        assert(session_lines.deep_view().take(session_lines@.len() as int) =~= session_lines.deep_view());
    }
    // Dedup by exact path equality, keeping first occurrences.
    let mut out: Vec<Project> = Vec::new();
    let mut k: usize = 0;
    while k < raw.len()
        invariant
            k <= raw@.len(),
            paths_of(out@) == dedup_first(paths_of(raw@).take(k as int)),
        decreases raw@.len() - k,
    {
        proof {
            assert(paths_of(raw@).take(k + 1).drop_last() =~= paths_of(raw@).take(k as int));
            assert(paths_of(raw@).take(k + 1).last() == paths_of(raw@)[k as int]);
        }
        if !contains_path(&out, &raw[k].path) {
            let ghost pre = paths_of(out@);
            out.push(Project { path: raw[k].path.clone() });
            proof {
                assert(paths_of(out@) =~= pre.push(raw@[k as int].path@));
                assert(paths_of(raw@)[k as int] == raw@[k as int].path@);
            }
        }
        k += 1;
    }
    proof {
        assert(paths_of(raw@).take(raw@.len() as int) =~= paths_of(raw@));
        lemma_dedup_first_no_dups(paths_of(raw@));
    }
    out
}

/// Splitting the raw sequence after entry `i`.
proof fn lemma_raw_from_step(entries: Seq<Entry>, exps: Seq<Seq<Seq<char>>>, i: int)
    requires
        0 <= i < entries.len(),
        exps.len() == entries.len(),
    ensures
        raw_from(entries.take(i + 1), exps.take(i + 1)) == raw_from(
            entries.take(i),
            exps.take(i),
        ) + entry_contrib(entries[i], exps[i]),
{
    assert(entries.take(i + 1).drop_last() =~= entries.take(i));
    assert(exps.take(i + 1).drop_last() =~= exps.take(i));
    assert(entries.take(i + 1).last() == entries[i]);
    assert(exps.take(i + 1)[entries.take(i + 1).len() - 1] == exps[i]);
}

/// The session name in one `list-sessions` output line: everything before
/// the first `:`, or the whole line when there is none.
pub open spec fn name_end(s: Seq<char>) -> int
    decreases s.len(),
{
    if s.len() == 0 {
        0
    } else if s[0] == ':' {
        0
    } else {
        1 + name_end(s.skip(1))
    }
}

pub open spec fn session_name_spec(s: Seq<char>) -> Seq<char> {
    s.take(name_end(s))
}

pub open spec fn session_names_spec(lines: Seq<Seq<char>>) -> Seq<Seq<char>> {
    lines.map_values(|l: Seq<char>| session_name_spec(l))
}

proof fn lemma_session_names_step(lines: Seq<Seq<char>>, i: int)
    requires
        0 <= i < lines.len(),
    ensures
        session_names_spec(lines.take(i + 1)) == session_names_spec(lines.take(i)).push(
            session_name_spec(lines[i]),
        ),
{
    assert(session_names_spec(lines.take(i + 1)) =~= session_names_spec(lines.take(i)).push(
        session_name_spec(lines[i]),
    ));
}

/// `name_end` is the index of the first `:`, or the length.
proof fn lemma_name_end_at(s: Seq<char>, i: int)
    requires
        0 <= i <= s.len(),
        forall|k: int| 0 <= k < i ==> s[k] != ':',
        i == s.len() || s[i] == ':',
    ensures
        name_end(s) == i,
    decreases s.len(),
{
    if s.len() == 0 {
    } else if s[0] == ':' {
        assert(i == 0);
    } else {
        assert(i >= 1);
        lemma_name_end_at(s.skip(1), i - 1);
    }
}

/// Extracts the session name from one output line.
pub fn session_name(line: &str) -> (r: String)
    ensures
        r@ == session_name_spec(line@),
{
    let len = line.unicode_len();
    let mut i: usize = 0;
    while i < len
        invariant
            i <= len,
            len == line@.len(),
            forall|k: int| 0 <= k < i ==> line@[k] != ':',
        decreases len - i,
    {
        if line.get_char(i) == ':' {
            proof {
                lemma_name_end_at(line@, i as int);
            }
            return String::from_str(line.substring_char(0, i));
        }
        i += 1;
    }
    proof {
        lemma_name_end_at(line@, len as int);
        assert(line@.take(len as int) =~= line@);
    }
    line.to_owned()
}

} // verus!
