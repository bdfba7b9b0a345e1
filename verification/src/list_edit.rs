//! Edits of the persisted project list.
//!
//! Adding appends a path unless it is already listed.  Deleting removes
//! every line equal to the chosen one.  Setting a depth drops the old
//! depth line of the chosen entry, appends the entry with its new suffix
//! (or bare, to clear it), and sorts the list.

use vstd::prelude::*;
use crate::entry::{is_digit, marker_spec};
use crate::history::hist_without;
use crate::project::is_prefix_of;

verus! {

/// Clones a list of lines.
fn clone_lines(lines: &Vec<String>) -> (r: Vec<String>)
    ensures
        r.deep_view() == lines.deep_view(),
{
    let mut r: Vec<String> = Vec::new();
    let mut i: usize = 0;
    proof {
        assert(r.deep_view() =~= lines.deep_view().take(0));
    }
    while i < lines.len()
        invariant
            i <= lines@.len(),
            r.deep_view() == lines.deep_view().take(i as int),
        decreases lines@.len() - i,
    {
        let ghost pre = r.deep_view();
        r.push(lines[i].clone());
        proof {
            assert(r.deep_view() =~= pre.push(lines.deep_view()[i as int]));
            assert(lines.deep_view().take(i + 1) =~= pre.push(lines.deep_view()[i as int]));
        }
        i += 1;
    }
    proof {
        assert(lines.deep_view().take(lines@.len() as int) =~= lines.deep_view());
    }
    r
}

/// Appends `dir` to the project list unless it is already listed.
pub fn add_project_lines(lines: &Vec<String>, dir: &String) -> (r: Vec<String>)
    ensures
        lines.deep_view().contains(dir@) ==> r.deep_view() == lines.deep_view(),
        !lines.deep_view().contains(dir@) ==> r.deep_view() == lines.deep_view().push(dir@),
{
    let mut r = clone_lines(lines);
    if !crate::picker::contains_line(lines, dir) {
        let ghost pre = r.deep_view();
        r.push(dir.clone());
        proof {
            assert(r.deep_view() =~= pre.push(dir@));
        }
    }
    r
}

/// Removes every line equal to the selected one.
pub fn delete_project_lines(lines: &Vec<String>, selected: &String) -> (r: Vec<String>)
    ensures
        r.deep_view() == hist_without(lines.deep_view(), selected@),
{
    let ghost l = lines.deep_view();
    let mut r: Vec<String> = Vec::new();
    proof {
        reveal(Seq::filter);
        assert(l.take(0) =~= Seq::<Seq<char>>::empty());
        assert(r.deep_view() =~= hist_without(l.take(0), selected@));
    }
    let mut i: usize = 0;
    while i < lines.len()
        invariant
            i <= l.len(),
            l == lines.deep_view(),
            r.deep_view() == hist_without(l.take(i as int), selected@),
        decreases l.len() - i,
    {
        proof {
            crate::history::lemma_hist_without_step(l, selected@, i as int);
        }
        if !lines[i].eq(selected) {
            let ghost pre = r.deep_view();
            r.push(lines[i].clone());
            proof {
                assert(r.deep_view() =~= pre.push(l[i as int]));
            }
        }
        i += 1;
    }
    proof {
        assert(l.take(l.len() as int) =~= l);
    }
    r
}

/// Acts on the picker's answer for a deletion: an empty answer is a
/// cancellation and leaves the list untouched; any other answer removes
/// its lines.
pub fn apply_deletion(lines: &Vec<String>, selected: &String) -> (r: Option<Vec<String>>)
    ensures
        match r {
            None => selected@.len() == 0,
            Some(nl) => selected@.len() > 0 && nl.deep_view() == hist_without(
                lines.deep_view(),
                selected@,
            ),
        },
{
    if selected.as_str().is_empty() {
        None
    } else {
        Some(delete_project_lines(lines, selected))
    }
}

/// True when the line carries a depth mark anywhere: the depth marker
/// followed by at least one digit.
pub open spec fn has_depth_mark(s: Seq<char>) -> bool {
    exists|k: int|
        0 <= k && k + 9 < s.len() && #[trigger] s.subrange(k, k + 9) == marker_spec()
            && is_digit(s[k + 9])
}

/// Decides whether a line carries a depth mark.
pub fn has_depth_mark_exec(line: &str) -> (r: bool)
    ensures
        r == has_depth_mark(line@),
{
    let len = line.unicode_len();
    if len < 10 {
        return false;
    }
    let mut k: usize = 0;
    while k + 9 < len
        invariant
            len == line@.len(),
            k + 9 <= len,
            forall|k2: int|
                0 <= k2 < k ==> !(#[trigger] line@.subrange(k2, k2 + 9) == marker_spec()
                    && is_digit(line@[k2 + 9])),
        decreases len - k,
    {
        let seg = line.substring_char(k, k + 9);
        if crate::entry::starts_with_marker(seg) {
            let c = line.get_char(k + 9);
            let code = c as u32;
            if code >= 48 && code <= 57 {
                assert(line@.subrange(k as int, k as int + 9) == marker_spec() && is_digit(
                    line@[k as int + 9],
                ));
                return true;
            }
        }
        k += 1;
    }
    false
}

/// The rewritten line of the chosen entry: bare to clear the depth, or
/// with the new depth suffix appended verbatim.
pub open spec fn new_depth_line(sel: Seq<char>, depth_input: Seq<char>) -> Seq<char> {
    if depth_input.len() == 0 {
        sel
    } else {
        sel + marker_spec() + depth_input
    }
}

/// The list without the chosen entry's old depth line: a line is dropped
/// when it carries a depth mark and starts with the chosen text.
pub open spec fn depth_cleared(ls: Seq<Seq<char>>, sel: Seq<char>) -> Seq<Seq<char>> {
    ls.filter(|x: Seq<char>| !(has_depth_mark(x) && is_prefix_of(sel, x)))
}

/// One step of dropping old depth lines.
proof fn lemma_depth_cleared_step(ls: Seq<Seq<char>>, sel: Seq<char>, i: int)
    requires
        0 <= i < ls.len(),
    ensures
        depth_cleared(ls.take(i + 1), sel) == if !(has_depth_mark(ls[i]) && is_prefix_of(
            sel,
            ls[i],
        )) {
            depth_cleared(ls.take(i), sel).push(ls[i])
        } else {
            depth_cleared(ls.take(i), sel)
        },
{
    reveal(Seq::filter);
    assert(ls.take(i + 1).drop_last() =~= ls.take(i));
    assert(ls.take(i + 1).last() == ls[i]);
}

/// Code-point order on lines, first difference decides.
pub open spec fn lex_le(a: Seq<char>, b: Seq<char>) -> bool
    decreases a.len(),
{
    if a.len() == 0 {
        true
    } else if b.len() == 0 {
        false
    } else if (a[0] as u32) != (b[0] as u32) {
        (a[0] as u32) < (b[0] as u32)
    } else {
        lex_le(a.skip(1), b.skip(1))
    }
}

/// Where a line belongs in an ascending list: before the first line it
/// precedes.
pub open spec fn insert_sorted(x: Seq<char>, s: Seq<Seq<char>>) -> Seq<Seq<char>>
    decreases s.len(),
{
    if s.len() == 0 {
        seq![x]
    } else if lex_le(x, s[0]) {
        seq![x] + s
    } else {
        seq![s[0]] + insert_sorted(x, s.skip(1))
    }
}

/// The list sorted ascending by [`lex_le`], by repeated insertion.
pub open spec fn sort_lines_spec(s: Seq<Seq<char>>) -> Seq<Seq<char>>
    decreases s.len(),
{
    if s.len() == 0 {
        Seq::empty()
    } else {
        insert_sorted(s.last(), sort_lines_spec(s.drop_last()))
    }
}

/// Ascending under code-point order.
pub open spec fn sorted_lex(s: Seq<Seq<char>>) -> bool {
    forall|i: int, j: int| 0 <= i < j < s.len() ==> lex_le(s[i], s[j])
}

/// Code-point order is total.
proof fn lemma_lex_le_total(a: Seq<char>, b: Seq<char>)
    ensures
        lex_le(a, b) || lex_le(b, a),
    decreases a.len(),
{
    if a.len() == 0 {
    } else if b.len() == 0 {
        assert(lex_le(b, a));
    } else if (a[0] as u32) == (b[0] as u32) {
        lemma_lex_le_total(a.skip(1), b.skip(1));
        assert(lex_le(a, b) == lex_le(a.skip(1), b.skip(1)));
        assert(lex_le(b, a) == lex_le(b.skip(1), a.skip(1)));
    }
}

/// Code-point order is transitive.
proof fn lemma_lex_le_trans(a: Seq<char>, b: Seq<char>, c: Seq<char>)
    requires
        lex_le(a, b),
        lex_le(b, c),
    ensures
        lex_le(a, c),
    decreases a.len(),
{
    if a.len() > 0 && b.len() > 0 && c.len() > 0 && (a[0] as u32) == (b[0] as u32) && (
    b[0] as u32) == (c[0] as u32) {
        lemma_lex_le_trans(a.skip(1), b.skip(1), c.skip(1));
    }
}

/// An insertion adds the new line and keeps the others.
proof fn lemma_insert_sorted_elems(x: Seq<char>, s: Seq<Seq<char>>)
    ensures
        forall|y: Seq<char>| #[trigger]
            insert_sorted(x, s).contains(y) ==> y == x || s.contains(y),
    decreases s.len(),
{
    if s.len() > 0 && !lex_le(x, s[0]) {
        lemma_insert_sorted_elems(x, s.skip(1));
        let t = insert_sorted(x, s.skip(1));
        assert forall|y: Seq<char>| #[trigger]
            insert_sorted(x, s).contains(y) implies y == x || s.contains(y) by {
            let j = choose|j: int| 0 <= j < t.len() + 1 && (seq![s[0]] + t)[j] == y;
            if j == 0 {
                assert(s.contains(s[0]));
            } else {
                assert(t[j - 1] == y);
                assert(t.contains(y));
                if y != x {
                    let k = choose|k: int| 0 <= k < s.len() - 1 && s.skip(1)[k] == y;
                    assert(s[k + 1] == y);
                }
            }
        };
    } else if s.len() > 0 {
        assert forall|y: Seq<char>| #[trigger]
            insert_sorted(x, s).contains(y) implies y == x || s.contains(y) by {
            let j = choose|j: int| 0 <= j < s.len() + 1 && (seq![x] + s)[j] == y;
            if j > 0 {
                assert(s[j - 1] == y);
            }
        };
    }
}

/// Inserting into an ascending list keeps it ascending.
proof fn lemma_insert_sorted_sorted(x: Seq<char>, s: Seq<Seq<char>>)
    requires
        sorted_lex(s),
    ensures
        sorted_lex(insert_sorted(x, s)),
    decreases s.len(),
{
    if s.len() == 0 {
    } else if lex_le(x, s[0]) {
        let whole = seq![x] + s;
        assert forall|i: int, j: int|
            0 <= i < j < whole.len() implies lex_le(whole[i], whole[j]) by {
            if i == 0 {
                if j > 1 {
                    lemma_lex_le_trans(x, s[0], s[j - 1]);
                }
            } else {
                assert(whole[i] == s[i - 1] && whole[j] == s[j - 1]);
            }
        };
    } else {
        lemma_lex_le_total(x, s[0]);
        assert(sorted_lex(s.skip(1))) by {
            assert(forall|i: int, j: int|
                0 <= i < j < s.len() - 1 ==> s.skip(1)[i] == s[i + 1] && s.skip(1)[j] == s[j
                    + 1]);
        };
        lemma_insert_sorted_sorted(x, s.skip(1));
        lemma_insert_sorted_elems(x, s.skip(1));
        let t = insert_sorted(x, s.skip(1));
        let whole = seq![s[0]] + t;
        assert forall|i: int, j: int|
            0 <= i < j < whole.len() implies lex_le(whole[i], whole[j]) by {
            if i == 0 {
                let y = t[j - 1];
                assert(t.contains(y));
                if y == x {
                    assert(lex_le(s[0], x));
                } else {
                    let k = choose|k: int| 0 <= k < s.len() - 1 && s.skip(1)[k] == y;
                    assert(s[k + 1] == y);
                    assert(lex_le(s[0], s[k + 1]));
                }
            } else {
                assert(whole[i] == t[i - 1] && whole[j] == t[j - 1]);
            }
        };
    }
}

/// An insertion adds exactly the new line to the bag of lines.
proof fn lemma_insert_sorted_multiset(x: Seq<char>, s: Seq<Seq<char>>)
    ensures
        insert_sorted(x, s).to_multiset() == s.to_multiset().insert(x),
    decreases s.len(),
{
    broadcast use vstd::multiset::group_multiset_axioms;
    broadcast use vstd::seq_lib::group_to_multiset_ensures;

    if s.len() == 0 {
        assert(seq![x] =~= Seq::<Seq<char>>::empty().push(x));
        assert(insert_sorted(x, s).to_multiset() =~= s.to_multiset().insert(x));
    } else if lex_le(x, s[0]) {
        vstd::seq_lib::lemma_multiset_commutative(seq![x], s);
        assert(seq![x] =~= Seq::<Seq<char>>::empty().push(x));
        assert(insert_sorted(x, s).to_multiset() =~= s.to_multiset().insert(x));
    } else {
        lemma_insert_sorted_multiset(x, s.skip(1));
        let t = insert_sorted(x, s.skip(1));
        vstd::seq_lib::lemma_multiset_commutative(seq![s[0]], t);
        vstd::seq_lib::lemma_multiset_commutative(seq![s[0]], s.skip(1));
        assert(s =~= seq![s[0]] + s.skip(1));
        assert(seq![s[0]] =~= Seq::<Seq<char>>::empty().push(s[0]));
        assert(insert_sorted(x, s).to_multiset() =~= s.to_multiset().insert(x));
    }
}

/// The sorting law: the sorted list is ascending and holds exactly the
/// lines given, multiplicity included.
pub proof fn lemma_sort_lines_law(s: Seq<Seq<char>>)
    ensures
        sorted_lex(sort_lines_spec(s)),
        sort_lines_spec(s).to_multiset() == s.to_multiset(),
    decreases s.len(),
{
    broadcast use vstd::seq_lib::group_to_multiset_ensures;

    if s.len() > 0 {
        lemma_sort_lines_law(s.drop_last());
        lemma_insert_sorted_sorted(s.last(), sort_lines_spec(s.drop_last()));
        lemma_insert_sorted_multiset(s.last(), sort_lines_spec(s.drop_last()));
        assert(s =~= s.drop_last().push(s.last()));
    }
}

/// Decides [`lex_le`] on two lines.
pub fn lex_le_exec(a: &str, b: &str) -> (r: bool)
    ensures
        r == lex_le(a@, b@),
{
    let alen = a.unicode_len();
    let blen = b.unicode_len();
    let mut i: usize = 0;
    proof {
        assert(a@.skip(0) =~= a@);
        assert(b@.skip(0) =~= b@);
    }
    while i < alen && i < blen
        invariant
            i <= alen,
            i <= blen,
            alen == a@.len(),
            blen == b@.len(),
            lex_le(a@, b@) == lex_le(a@.skip(i as int), b@.skip(i as int)),
        decreases alen - i,
    {
        let ca = a.get_char(i) as u32;
        let cb = b.get_char(i) as u32;
        if ca != cb {
            assert(a@.skip(i as int)[0] == a@[i as int] && b@.skip(i as int)[0] == b@[i as int]);
            return ca < cb;
        }
        proof {
            assert(a@.skip(i as int)[0] == a@[i as int] && b@.skip(i as int)[0] == b@[i as int]);
            assert(a@.skip(i as int).skip(1) =~= a@.skip(i + 1));
            assert(b@.skip(i as int).skip(1) =~= b@.skip(i + 1));
        }
        i += 1;
    }
    if i == alen {
        assert(a@.skip(i as int).len() == 0);
        true
    } else {
        assert(b@.skip(i as int).len() == 0);
        assert(a@.skip(i as int).len() > 0);
        false
    }
}

/// Where insertion lands, the sorted insertion splits the list there.
proof fn lemma_insert_sorted_at(s: Seq<Seq<char>>, x: Seq<char>, j: int)
    requires
        0 <= j <= s.len(),
        forall|k: int| 0 <= k < j ==> !lex_le(x, s[k]),
        j == s.len() || lex_le(x, s[j]),
    ensures
        insert_sorted(x, s) == s.take(j) + seq![x] + s.skip(j),
    decreases j,
{
    if j == 0 {
        if s.len() == 0 {
            assert(insert_sorted(x, s) =~= s.take(0) + seq![x] + s.skip(0));
        } else {
            assert(insert_sorted(x, s) =~= s.take(0) + seq![x] + s.skip(0));
        }
    } else {
        assert(!lex_le(x, s[0]));
        assert(forall|k: int| 0 <= k < j - 1 ==> s.skip(1)[k] == s[k + 1]);
        lemma_insert_sorted_at(s.skip(1), x, j - 1);
        assert(insert_sorted(x, s) == seq![s[0]] + insert_sorted(x, s.skip(1)));
        assert(seq![s[0]] + (s.skip(1).take(j - 1) + seq![x] + s.skip(1).skip(j - 1)) =~= s.take(
            j,
        ) + seq![x] + s.skip(j));
    }
}

/// The index where `x` is inserted: before the first line it precedes.
fn insertion_point(sorted: &Vec<String>, x: &String) -> (j: usize)
    ensures
        j <= sorted@.len(),
        forall|k: int| 0 <= k < j ==> !lex_le(x@, sorted.deep_view()[k]),
        j == sorted@.len() || lex_le(x@, sorted.deep_view()[j as int]),
{
    let mut j: usize = 0;
    while j < sorted.len()
        invariant
            j <= sorted@.len(),
            forall|k: int| 0 <= k < j ==> !lex_le(x@, sorted.deep_view()[k]),
        decreases sorted@.len() - j,
    {
        if lex_le_exec(x.as_str(), sorted[j].as_str()) {
            return j;
        }
        j += 1;
    }
    j
}

/// Sorts lines ascending by code-point order.
pub fn sort_lines(v: &Vec<String>) -> (r: Vec<String>)
    ensures
        r.deep_view() == sort_lines_spec(v.deep_view()),
{
    let ghost s = v.deep_view();
    let mut out: Vec<String> = Vec::new();
    let mut i: usize = 0;
    proof {
        assert(out.deep_view() =~= sort_lines_spec(s.take(0)));
    }
    while i < v.len()
        invariant
            i <= s.len(),
            s == v.deep_view(),
            out.deep_view() == sort_lines_spec(s.take(i as int)),
        decreases s.len() - i,
    {
        let j = insertion_point(&out, &v[i]);
        let ghost pre = out.deep_view();
        out.insert(j, v[i].clone());
        proof {
            lemma_insert_sorted_at(pre, s[i as int], j as int);
            assert(out.deep_view() =~= pre.take(j as int) + seq![s[i as int]] + pre.skip(j as int));
            assert(s.take(i + 1).drop_last() =~= s.take(i as int));
            assert(s.take(i + 1).last() == s[i as int]);
        }
        i += 1;
    }
    proof {
        assert(s.take(s.len() as int) =~= s);
    }
    out
}

/// Rewrites the list for a depth change of the chosen entry: the old
/// depth line of that entry is dropped, the entry re-enters with its new
/// suffix (or bare), and the list is sorted.
pub fn set_depth_lines(lines: &Vec<String>, selected: &String, depth_input: &String) -> (r: Vec<
    String,
>)
    ensures
        r.deep_view() == sort_lines_spec(
            depth_cleared(lines.deep_view(), selected@).push(
                new_depth_line(selected@, depth_input@),
            ),
        ),
{
    let ghost l = lines.deep_view();
    let mut kept: Vec<String> = Vec::new();
    proof {
        reveal(Seq::filter);
        assert(l.take(0) =~= Seq::<Seq<char>>::empty());
        assert(kept.deep_view() =~= depth_cleared(l.take(0), selected@));
    }
    let mut i: usize = 0;
    while i < lines.len()
        invariant
            i <= l.len(),
            l == lines.deep_view(),
            kept.deep_view() == depth_cleared(l.take(i as int), selected@),
        decreases l.len() - i,
    {
        proof {
            lemma_depth_cleared_step(l, selected@, i as int);
        }
        let marked = has_depth_mark_exec(lines[i].as_str());
        let chosen = crate::project::starts_with_str(lines[i].as_str(), selected.as_str());
        if !(marked && chosen) {
            let ghost pre = kept.deep_view();
            kept.push(lines[i].clone());
            proof {
                assert(kept.deep_view() =~= pre.push(l[i as int]));
            }
        }
        i += 1;
    }
    proof {
        assert(l.take(l.len() as int) =~= l);
    }
    let new_line = if depth_input.as_str().is_empty() {
        selected.clone()
    } else {
        selected.clone().concat(" --depth ").concat(depth_input.as_str())
    };
    proof {
        reveal_strlit(" --depth ");
        assert(new_line@ =~= new_depth_line(selected@, depth_input@));
    }
    let ghost pre = kept.deep_view();
    kept.push(new_line);
    proof {
        assert(kept.deep_view() =~= pre.push(new_depth_line(selected@, depth_input@)));
    }
    sort_lines(&kept)
}

/// Acts on the picker's answer for a depth change: an empty answer is a
/// cancellation and leaves the list untouched; any other answer rewrites
/// its entry.
pub fn apply_set_depth(lines: &Vec<String>, selected: &String, depth_input: &String) -> (r:
    Option<Vec<String>>)
    ensures
        match r {
            None => selected@.len() == 0,
            Some(nl) => selected@.len() > 0 && nl.deep_view() == sort_lines_spec(
                depth_cleared(lines.deep_view(), selected@).push(
                    new_depth_line(selected@, depth_input@),
                ),
            ),
        },
{
    if selected.as_str().is_empty() {
        None
    } else {
        Some(set_depth_lines(lines, selected, depth_input))
    }
}

} // verus!
