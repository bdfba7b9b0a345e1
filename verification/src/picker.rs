//! Building the list handed to the interactive picker.
//!
//! The candidate set is first stripped of the project whose display label
//! equals the current session's label — the user is never offered the
//! place they already are.  Raw history labels still naming a remaining
//! candidate come first, in history order; the labels of the
//! history-reordered remaining candidates follow; every label appears
//! once.

use vstd::prelude::*;
use crate::history::{lemma_reorder_spec_elems, reorder_spec};
use crate::project::{label_spec, Project};

verus! {

/// The label the current session contributes, if the caller runs inside
/// the multiplexer.
pub open spec fn cur_view(c: Option<&String>) -> Option<Seq<char>> {
    match c {
        Some(s) => Some(s@),
        None => None,
    }
}

/// True when a label is the current session's label and must be withheld.
pub open spec fn excluded(cur: Option<Seq<char>>, label: Seq<char>) -> bool {
    match cur {
        Some(c) => label == c,
        None => false,
    }
}

/// The candidates that may be offered: all whose label is not withheld.
pub open spec fn candidate_filter(
    ps: Seq<Project>,
    cur: Option<Seq<char>>,
    home: Seq<char>,
) -> Seq<Project> {
    ps.filter(|p: Project| !excluded(cur, label_spec(p.path@, home)))
}

/// True when some candidate's display label is `label`.
pub open spec fn contains_label(ps: Seq<Project>, label: Seq<char>, home: Seq<char>) -> bool {
    exists|i: int| 0 <= i < ps.len() && label_spec(ps[i].path@, home) == label
}

/// The front of the picker list: history labels naming a candidate, in
/// history order, each once.
pub open spec fn picker_hist(
    h: Seq<Seq<char>>,
    cands: Seq<Project>,
    home: Seq<char>,
    seen: Set<Seq<char>>,
) -> Seq<Seq<char>>
    decreases h.len(),
{
    if h.len() == 0 {
        Seq::empty()
    } else if contains_label(cands, h[0], home) && !seen.contains(h[0]) {
        seq![h[0]] + picker_hist(h.skip(1), cands, home, seen.insert(h[0]))
    } else {
        picker_hist(h.skip(1), cands, home, seen)
    }
}

/// The back of the picker list: the candidates' labels in ranked order,
/// skipping labels already listed.
pub open spec fn picker_rest(ps: Seq<Project>, home: Seq<char>, seen: Set<Seq<char>>) -> Seq<
    Seq<char>,
>
    decreases ps.len(),
{
    if ps.len() == 0 {
        Seq::empty()
    } else {
        let l = label_spec(ps[0].path@, home);
        if !seen.contains(l) {
            seq![l] + picker_rest(ps.skip(1), home, seen.insert(l))
        } else {
            picker_rest(ps.skip(1), home, seen)
        }
    }
}

/// The whole picker list.
pub open spec fn picker_spec(
    h: Seq<Seq<char>>,
    ps: Seq<Project>,
    cur: Option<Seq<char>>,
    home: Seq<char>,
) -> Seq<Seq<char>> {
    let cands = candidate_filter(ps, cur, home);
    let front = picker_hist(h, cands, home, Set::empty());
    front + picker_rest(reorder_spec(h, cands, home), home, front.to_set())
}

/// Every offered candidate's label escapes the exclusion.
proof fn lemma_candidate_filter_pred(ps: Seq<Project>, cur: Option<Seq<char>>, home: Seq<char>)
    ensures
        forall|i: int|
            0 <= i < candidate_filter(ps, cur, home).len() ==> !excluded(
                cur,
                label_spec(candidate_filter(ps, cur, home)[i].path@, home),
            ),
    decreases ps.len(),
{
    reveal(Seq::filter);
    if ps.len() > 0 {
        lemma_candidate_filter_pred(ps.drop_last(), cur, home);
        let d = candidate_filter(ps.drop_last(), cur, home);
        if !excluded(cur, label_spec(ps.last().path@, home)) {
            assert forall|i: int|
                0 <= i < candidate_filter(ps, cur, home).len() implies !excluded(
                cur,
                label_spec(candidate_filter(ps, cur, home)[i].path@, home),
            ) by {
                if i < d.len() {
                    assert(candidate_filter(ps, cur, home)[i] == d[i]);
                }
            };
        }
    }
}

/// One step of filtering the candidates.
proof fn lemma_candidate_filter_step(
    ps: Seq<Project>,
    cur: Option<Seq<char>>,
    home: Seq<char>,
    i: int,
)
    requires
        0 <= i < ps.len(),
    ensures
        candidate_filter(ps.take(i + 1), cur, home) == if !excluded(
            cur,
            label_spec(ps[i].path@, home),
        ) {
            candidate_filter(ps.take(i), cur, home).push(ps[i])
        } else {
            candidate_filter(ps.take(i), cur, home)
        },
{
    reveal(Seq::filter);
    assert(ps.take(i + 1).drop_last() =~= ps.take(i));
    assert(ps.take(i + 1).last() == ps[i]);
}

/// Every label the front of the picker list holds names a candidate.
proof fn lemma_picker_hist_elems(
    h: Seq<Seq<char>>,
    cands: Seq<Project>,
    home: Seq<char>,
    seen: Set<Seq<char>>,
)
    ensures
        forall|x: Seq<char>| #[trigger]
            picker_hist(h, cands, home, seen).contains(x) ==> contains_label(cands, x, home),
    decreases h.len(),
{
    if h.len() > 0 {
        lemma_picker_hist_elems(h.skip(1), cands, home, seen);
        lemma_picker_hist_elems(h.skip(1), cands, home, seen.insert(h[0]));
        assert forall|x: Seq<char>| #[trigger]
            picker_hist(h, cands, home, seen).contains(x) implies contains_label(
            cands,
            x,
            home,
        ) by {
            if contains_label(cands, h[0], home) && !seen.contains(h[0]) {
                let tail = picker_hist(h.skip(1), cands, home, seen.insert(h[0]));
                let j = choose|j: int| 0 <= j < tail.len() + 1 && (seq![h[0]] + tail)[j] == x;
                if j > 0 {
                    assert(tail[j - 1] == x);
                    assert(tail.contains(x));
                }
            } else {
                assert(picker_hist(h.skip(1), cands, home, seen).contains(x));
            }
        };
    }
}

/// Every label the back of the picker list holds is a ranked label.
proof fn lemma_picker_rest_elems(ps: Seq<Project>, home: Seq<char>, seen: Set<Seq<char>>)
    ensures
        forall|x: Seq<char>| #[trigger]
            picker_rest(ps, home, seen).contains(x) ==> exists|p: Project|
                ps.contains(p) && x == label_spec(p.path@, home),
    decreases ps.len(),
{
    if ps.len() > 0 {
        let l = label_spec(ps[0].path@, home);
        lemma_picker_rest_elems(ps.skip(1), home, seen.insert(l));
        lemma_picker_rest_elems(ps.skip(1), home, seen);
        assert forall|x: Seq<char>| #[trigger]
            picker_rest(ps, home, seen).contains(x) implies exists|p: Project|
            ps.contains(p) && x == label_spec(p.path@, home) by {
            if !seen.contains(l) {
                let tail = picker_rest(ps.skip(1), home, seen.insert(l));
                let j = choose|j: int| 0 <= j < tail.len() + 1 && (seq![l] + tail)[j] == x;
                if j == 0 {
                    assert(ps[0] == ps[0] && x == label_spec(ps[0].path@, home));
                    assert(ps.contains(ps[0]));
                } else {
                    assert(tail[j - 1] == x);
                    assert(tail.contains(x));
                    let p = choose|p: Project|
                        ps.skip(1).contains(p) && x == label_spec(p.path@, home);
                    let k = choose|k: int| 0 <= k < ps.len() - 1 && ps.skip(1)[k] == p;
                    assert(ps[k + 1] == p);
                    assert(ps.contains(p));
                }
            } else {
                assert(picker_rest(ps.skip(1), home, seen).contains(x));
                let p = choose|p: Project|
                    ps.skip(1).contains(p) && x == label_spec(p.path@, home);
                let k = choose|k: int| 0 <= k < ps.len() - 1 && ps.skip(1)[k] == p;
                assert(ps[k + 1] == p);
                assert(ps.contains(p));
            }
        };
    }
}

/// The exclusion law: when the caller is inside a session, that session's
/// label never appears in the picker list.
pub proof fn lemma_picker_excludes(
    h: Seq<Seq<char>>,
    ps: Seq<Project>,
    cur: Option<Seq<char>>,
    home: Seq<char>,
)
    ensures
        match cur {
            Some(c) => forall|i: int|
                0 <= i < picker_spec(h, ps, cur, home).len() ==> picker_spec(h, ps, cur, home)[i]
                    != c,
            None => true,
        },
{
    if cur is Some {
        let c = cur->0;
        let cands = candidate_filter(ps, cur, home);
        let front = picker_hist(h, cands, home, Set::empty());
        let back = picker_rest(reorder_spec(h, cands, home), home, front.to_set());
        lemma_candidate_filter_pred(ps, cur, home);
        lemma_picker_hist_elems(h, cands, home, Set::empty());
        lemma_picker_rest_elems(reorder_spec(h, cands, home), home, front.to_set());
        lemma_reorder_spec_elems(h, cands, home);
        assert forall|i: int|
            0 <= i < picker_spec(h, ps, cur, home).len() implies picker_spec(h, ps, cur, home)[i]
            != c by {
            let x = picker_spec(h, ps, cur, home)[i];
            if i < front.len() {
                assert(front[i] == x);
                assert(front.contains(x));
                assert(contains_label(cands, x, home));
                let w = choose|w: int|
                    0 <= w < cands.len() && label_spec(cands[w].path@, home) == x;
                assert(!excluded(cur, label_spec(cands[w].path@, home)));
            } else {
                assert(back[i - front.len()] == x);
                assert(back.contains(x));
                let p = choose|p: Project|
                    reorder_spec(h, cands, home).contains(p) && x == label_spec(p.path@, home);
                assert(cands.contains(p));
                let w = choose|w: int| 0 <= w < cands.len() && cands[w] == p;
                assert(!excluded(cur, label_spec(cands[w].path@, home)));
            }
        };
    }
}

/// True when some line of `lines` is `x`.
pub(crate) fn contains_line(lines: &Vec<String>, x: &String) -> (r: bool)
    ensures
        r == lines.deep_view().contains(x@),
{
    let mut i: usize = 0;
    while i < lines.len()
        invariant
            i <= lines@.len(),
            forall|k: int| 0 <= k < i ==> lines.deep_view()[k] != x@,
        decreases lines@.len() - i,
    {
        if lines[i].eq(x) {
            assert(lines.deep_view()[i as int] == x@);
            return true;
        }
        i += 1;
    }
    false
}

/// Decides whether some candidate's display label is `label`.
fn contains_label_exec(ps: &Vec<Project>, label: &String, home: &str) -> (r: bool)
    ensures
        r == contains_label(ps@, label@, home@),
{
    let mut i: usize = 0;
    while i < ps.len()
        invariant
            i <= ps@.len(),
            forall|k: int| 0 <= k < i ==> label_spec(ps@[k].path@, home@) != label@,
        decreases ps@.len() - i,
    {
        let l = ps[i].display_label(home);
        if l.eq(label) {
            return true;
        }
        i += 1;
    }
    false
}

/// Pushing a line inserts its view into the listed-label set.
proof fn lemma_line_set_push(s: Seq<Seq<char>>, x: Seq<char>)
    ensures
        s.push(x).to_set() == s.to_set().insert(x),
{
    assert forall|y: Seq<char>| s.push(x).to_set().contains(y) implies s.to_set().insert(
        x,
    ).contains(y) by {
        let j = choose|j: int| 0 <= j < s.len() + 1 && s.push(x)[j] == y;
        if j < s.len() {
            assert(s[j] == y);
        }
    };
    assert forall|y: Seq<char>| s.to_set().insert(x).contains(y) implies s.push(
        x,
    ).to_set().contains(y) by {
        if y == x {
            assert(s.push(x)[s.len() as int] == y);
        } else {
            let j = choose|j: int| 0 <= j < s.len() && s[j] == y;
            assert(s.push(x)[j] == y);
        }
    };
    assert(s.push(x).to_set() =~= s.to_set().insert(x));
}

/// Builds the picker list: history labels naming an offerable candidate
/// first, then the ranked candidates' labels, each label once, and the
/// current session's label never.
pub fn build_picker_list(
    history: &Vec<String>,
    projects: &Vec<Project>,
    current: Option<&String>,
    home: &str,
) -> (r: Vec<String>)
    ensures
        r.deep_view() == picker_spec(history.deep_view(), projects@, cur_view(current), home@),
        match current {
            Some(c) => forall|i: int|
                0 <= i < r.deep_view().len() ==> r.deep_view()[i] != c@,
            None => true,
        },
{
    let ghost h = history.deep_view();
    let ghost cur = cur_view(current);
    // Withhold the current session's label from the candidate set.
    let mut cands: Vec<Project> = Vec::new();
    let mut i: usize = 0;
    proof {
        assert(projects@.take(0) =~= Seq::<Project>::empty());
        reveal(Seq::filter);
        assert(cands@ =~= candidate_filter(projects@.take(0), cur, home@));
    }
    while i < projects.len()
        invariant
            i <= projects@.len(),
            cur == cur_view(current),
            cands@ == candidate_filter(projects@.take(i as int), cur, home@),
        decreases projects@.len() - i,
    {
        let keep: bool = match current {
            Some(c) => {
                let l = projects[i].display_label(home);
                !l.eq(c)
            },
            None => true,
        };
        proof {
            lemma_candidate_filter_step(projects@, cur, home@, i as int);
        }
        if keep {
            let ghost pre = cands@;
            cands.push(Project { path: projects[i].path.clone() });
            proof {
                assert(cands@ =~= pre.push(projects@[i as int]));
            }
        }
        i += 1;
    }
    proof {
        assert(projects@.take(projects@.len() as int) =~= projects@);
    }
    let ghost cseq = candidate_filter(projects@, cur, home@);
    let ghost front_full = picker_hist(h, cseq, home@, Set::empty());

    let mut out: Vec<String> = Vec::new();
    let mut j: usize = 0;
    proof {
        assert(h.skip(0) =~= h);
        assert(out.deep_view() =~= Seq::<Seq<char>>::empty());
        assert(out.deep_view().to_set() =~= Set::<Seq<char>>::empty());
    }
    while j < history.len()
        invariant
            j <= h.len(),
            h == history.deep_view(),
            cands@ == cseq,
            front_full == out.deep_view() + picker_hist(
                h.skip(j as int),
                cseq,
                home@,
                out.deep_view().to_set(),
            ),
        decreases h.len() - j,
    {
        proof {
            assert(h.skip(j as int)[0] == h[j as int]);
            assert(h.skip(j as int).skip(1) =~= h.skip(j + 1));
        }
        let named = contains_label_exec(&cands, &history[j], home);
        if named {
            if !contains_line(&out, &history[j]) {
                let ghost pre = out.deep_view();
                out.push(history[j].clone());
                proof {
                    assert(out.deep_view() =~= pre.push(h[j as int]));
                    lemma_line_set_push(pre, h[j as int]);
                }
            }
        }
        j += 1;
    }
    proof {
        assert(h.skip(h.len() as int) =~= Seq::<Seq<char>>::empty());
        assert(out.deep_view() == front_full);
    }

    let reordered = crate::history::reorder_projects_by_history(history, &cands, home);
    let ghost rseq = reorder_spec(h, cseq, home@);
    let ghost target = picker_spec(h, projects@, cur, home@);
    let mut k: usize = 0;
    proof {
        assert(rseq.skip(0) =~= rseq);
    }
    while k < reordered.len()
        invariant
            k <= rseq.len(),
            reordered@ == rseq,
            target == out.deep_view() + picker_rest(
                rseq.skip(k as int),
                home@,
                out.deep_view().to_set(),
            ),
        decreases rseq.len() - k,
    {
        proof {
            assert(rseq.skip(k as int)[0] == rseq[k as int]);
            assert(rseq.skip(k as int).skip(1) =~= rseq.skip(k + 1));
        }
        let l = reordered[k].display_label(home);
        if !contains_line(&out, &l) {
            let ghost pre = out.deep_view();
            out.push(l);
            proof {
                assert(out.deep_view() =~= pre.push(label_spec(rseq[k as int].path@, home@)));
                lemma_line_set_push(pre, label_spec(rseq[k as int].path@, home@));
            }
        }
        k += 1;
    }
    proof {
        assert(rseq.skip(rseq.len() as int) =~= Seq::<Project>::empty());
        lemma_picker_excludes(h, projects@, cur, home@);
    }
    out
}

} // verus!
