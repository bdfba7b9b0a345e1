//! The history log and recency ranking.
//!
//! The history file holds display labels, most recent first, capped at
//! [`HISTORY_CAP`] entries, with no duplicates: a re-selected label moves
//! to the front.  Ranking walks the history and emits the candidate whose
//! label matches, then appends the candidates never selected, in their
//! original order.

use vstd::prelude::*;
use crate::aggregate::{all_distinct, paths_of};
use crate::project::{label_spec, Project};

verus! {

/// Upper bound on the number of history entries.
pub const HISTORY_CAP: usize = 2000;

/// `h` without every occurrence of `sel`.
pub open spec fn hist_without(h: Seq<Seq<char>>, sel: Seq<char>) -> Seq<Seq<char>> {
    h.filter(|x: Seq<char>| x != sel)
}

/// The history after selecting `sel`: `sel` moves to the front, its old
/// occurrences disappear, and the log is cut to the cap.
pub open spec fn updated_history(h: Seq<Seq<char>>, sel: Seq<char>) -> Seq<Seq<char>> {
    let moved = seq![sel] + hist_without(h, sel);
    if moved.len() > HISTORY_CAP {
        moved.take(HISTORY_CAP as int)
    } else {
        moved
    }
}

/// One step of filtering out `sel`.
pub(crate) proof fn lemma_hist_without_step(h: Seq<Seq<char>>, sel: Seq<char>, i: int)
    requires
        0 <= i < h.len(),
    ensures
        hist_without(h.take(i + 1), sel) == if h[i] != sel {
            hist_without(h.take(i), sel).push(h[i])
        } else {
            hist_without(h.take(i), sel)
        },
{
    reveal(Seq::filter);
    assert(h.take(i + 1).drop_last() =~= h.take(i));
    assert(h.take(i + 1).last() == h[i]);
}

/// Every line of the filtered history comes from the history.
proof fn lemma_hist_without_contains(h: Seq<Seq<char>>, sel: Seq<char>, x: Seq<char>)
    requires
        hist_without(h, sel).contains(x),
    ensures
        h.contains(x),
    decreases h.len(),
{
    reveal(Seq::filter);
    if h.len() > 0 {
        let d = hist_without(h.drop_last(), sel);
        if h.last() != sel && hist_without(h, sel) == d.push(h.last()) {
            let j = choose|j: int| 0 <= j < d.len() + 1 && d.push(h.last())[j] == x;
            if j < d.len() {
                assert(d[j] == x);
                lemma_hist_without_contains(h.drop_last(), sel, x);
                let k = choose|k: int| 0 <= k < h.len() - 1 && h.drop_last()[k] == x;
                assert(h[k] == x);
            } else {
                assert(h[h.len() - 1] == x);
            }
        } else {
            lemma_hist_without_contains(h.drop_last(), sel, x);
            let k = choose|k: int| 0 <= k < h.len() - 1 && h.drop_last()[k] == x;
            assert(h[k] == x);
        }
    }
}

/// Filtering a duplicate-free history keeps it duplicate-free.
proof fn lemma_hist_without_distinct(h: Seq<Seq<char>>, sel: Seq<char>)
    requires
        all_distinct(h),
    ensures
        all_distinct(hist_without(h, sel)),
    decreases h.len(),
{
    reveal(Seq::filter);
    if h.len() > 0 {
        assert(all_distinct(h.drop_last())) by {
            assert(forall|i: int|
                0 <= i < h.len() - 1 ==> h.drop_last()[i] == h[i]);
        };
        lemma_hist_without_distinct(h.drop_last(), sel);
        let d = hist_without(h.drop_last(), sel);
        if h.last() != sel {
            if d.contains(h.last()) {
                lemma_hist_without_contains(h.drop_last(), sel, h.last());
                let k = choose|k: int| 0 <= k < h.len() - 1 && h.drop_last()[k] == h.last();
                assert(h[k] == h[h.len() - 1]);
                assert(false);
            }
            assert forall|i: int, j: int|
                0 <= i < j < d.push(h.last()).len() implies d.push(h.last())[i] != d.push(
                h.last(),
            )[j] by {
                if j < d.len() {
                    assert(d[i] != d[j]);
                } else {
                    if d[i] == h.last() {
                        assert(d.contains(h.last()));
                    }
                }
            };
        }
    }
}

/// No line of the filtered history is the selected label.
proof fn lemma_hist_without_pred(h: Seq<Seq<char>>, sel: Seq<char>)
    ensures
        forall|i: int|
            0 <= i < hist_without(h, sel).len() ==> hist_without(h, sel)[i] != sel,
    decreases h.len(),
{
    reveal(Seq::filter);
    if h.len() > 0 {
        lemma_hist_without_pred(h.drop_last(), sel);
        let d = hist_without(h.drop_last(), sel);
        if h.last() != sel {
            assert forall|i: int|
                0 <= i < hist_without(h, sel).len() implies hist_without(h, sel)[i] != sel by {
                if i < d.len() {
                    assert(hist_without(h, sel)[i] == d[i]);
                }
            };
        }
    }
}

/// The law of a selection: the log stays within the cap, the selection
/// stands first, and a duplicate-free log stays duplicate-free.
pub proof fn lemma_history_update_law(h: Seq<Seq<char>>, sel: Seq<char>)
    ensures
        updated_history(h, sel).len() <= HISTORY_CAP,
        updated_history(h, sel).len() >= 1,
        updated_history(h, sel)[0] == sel,
        all_distinct(h) ==> all_distinct(updated_history(h, sel)),
{
    let moved = seq![sel] + hist_without(h, sel);
    assert(moved[0] == sel);
    if all_distinct(h) {
        lemma_hist_without_distinct(h, sel);
        lemma_hist_without_pred(h, sel);
        let f = hist_without(h, sel);
        assert forall|i: int, j: int| 0 <= i < j < moved.len() implies moved[i] != moved[j] by {
            if i == 0 {
                assert(moved[j] == f[j - 1]);
            } else {
                assert(moved[i] == f[i - 1] && moved[j] == f[j - 1]);
            }
        };
    }
    if moved.len() > HISTORY_CAP {
        assert(updated_history(h, sel) == moved.take(HISTORY_CAP as int));
    }
}

/// Rebuilds the history after a selection: the selected label first, the
/// remaining lines in order with the selected label dropped, cut to the cap.
pub fn update_history(history: &Vec<String>, selected: &String) -> (r: Vec<String>)
    ensures
        r.deep_view() == updated_history(history.deep_view(), selected@),
{
    let ghost h = history.deep_view();
    let mut r: Vec<String> = Vec::new();
    r.push(selected.clone());
    proof {
        reveal(Seq::filter);
        assert(h.take(0) =~= Seq::<Seq<char>>::empty());
        assert(r.deep_view() =~= seq![selected@] + hist_without(h.take(0), selected@));
    }
    let mut i: usize = 0;
    while i < history.len()
        invariant
            i <= h.len(),
            h == history.deep_view(),
            r.deep_view() == seq![selected@] + hist_without(h.take(i as int), selected@),
        decreases h.len() - i,
    {
        proof {
            lemma_hist_without_step(h, selected@, i as int);
        }
        if !history[i].eq(selected) {
            let ghost pre = r.deep_view();
            r.push(history[i].clone());
            proof {
                assert(r.deep_view() =~= pre.push(h[i as int]));
                assert(pre.push(h[i as int]) =~= seq![selected@] + hist_without(
                    h.take(i as int),
                    selected@,
                ).push(h[i as int]));
            }
        }
        i += 1;
    }
    proof {
        assert(h.take(h.len() as int) =~= h);
    }
    let ghost full = r.deep_view();
    r.truncate(HISTORY_CAP);
    proof {
        if full.len() > HISTORY_CAP {
            assert(r.deep_view() =~= full.subrange(0, HISTORY_CAP as int));
            assert(full.subrange(0, HISTORY_CAP as int) =~= full.take(HISTORY_CAP as int));
        }
    }
    r
}

/// Acts on the picker's answer: an empty answer is a cancellation and
/// leaves the history untouched; any other answer reorders it.
pub fn apply_selection(history: &Vec<String>, selected: &String) -> (r: Option<Vec<String>>)
    ensures
        match r {
            None => selected@.len() == 0,
            Some(nh) => selected@.len() > 0 && nh.deep_view() == updated_history(
                history.deep_view(),
                selected@,
            ),
        },
{
    if selected.as_str().is_empty() {
        None
    } else {
        Some(update_history(history, selected))
    }
}

/// The set of paths occurring in `ps`.
pub open spec fn path_set(ps: Seq<Project>) -> Set<Seq<char>> {
    paths_of(ps).to_set()
}

/// The candidate a label stands for: the last one whose display label
/// matches, as a lookup table built front to back would have it.
pub open spec fn lookup_label(ps: Seq<Project>, label: Seq<char>, home: Seq<char>) -> Option<
    Project,
>
    decreases ps.len(),
{
    if ps.len() == 0 {
        None
    } else if label_spec(ps.last().path@, home) == label {
        Some(ps.last())
    } else {
        lookup_label(ps.drop_last(), label, home)
    }
}

/// The history-ranked front of the output: for each history label in
/// order, the candidate it stands for, unless its path was already
/// emitted.
pub open spec fn reorder_hist(
    h: Seq<Seq<char>>,
    ps: Seq<Project>,
    home: Seq<char>,
    seen: Set<Seq<char>>,
) -> Seq<Project>
    decreases h.len(),
{
    if h.len() == 0 {
        Seq::empty()
    } else {
        match lookup_label(ps, h[0], home) {
            Some(p) => if !seen.contains(p.path@) {
                seq![p] + reorder_hist(h.skip(1), ps, home, seen.insert(p.path@))
            } else {
                reorder_hist(h.skip(1), ps, home, seen)
            },
            None => reorder_hist(h.skip(1), ps, home, seen),
        }
    }
}

/// The candidates never selected, in their original order.
pub open spec fn reorder_rest(ps: Seq<Project>, seen: Set<Seq<char>>) -> Seq<Project>
    decreases ps.len(),
{
    if ps.len() == 0 {
        Seq::empty()
    } else if !seen.contains(ps[0].path@) {
        seq![ps[0]] + reorder_rest(ps.skip(1), seen.insert(ps[0].path@))
    } else {
        reorder_rest(ps.skip(1), seen)
    }
}

/// The full recency ranking: history hits first, in history order, then
/// the candidates never selected, in candidate order, each path once.
pub open spec fn reorder_spec(h: Seq<Seq<char>>, ps: Seq<Project>, home: Seq<char>) -> Seq<
    Project,
> {
    let front = reorder_hist(h, ps, home, Set::empty());
    front + reorder_rest(ps, path_set(front))
}

/// Pushing a project inserts its path into the path set.
proof fn lemma_path_set_push(s: Seq<Project>, p: Project)
    ensures
        path_set(s.push(p)) == path_set(s).insert(p.path@),
{
    assert forall|x: Seq<char>| path_set(s.push(p)).contains(x) implies path_set(s).insert(
        p.path@,
    ).contains(x) by {
        let j = choose|j: int| 0 <= j < s.len() + 1 && paths_of(s.push(p))[j] == x;
        if j < s.len() {
            assert(paths_of(s)[j] == x);
        }
    };
    assert forall|x: Seq<char>| path_set(s).insert(p.path@).contains(x) implies path_set(
        s.push(p),
    ).contains(x) by {
        if x == p.path@ {
            assert(paths_of(s.push(p))[s.len() as int] == x);
        } else {
            let j = choose|j: int| 0 <= j < s.len() && paths_of(s)[j] == x;
            assert(paths_of(s.push(p))[j] == x);
        }
    };
    assert(path_set(s.push(p)) =~= path_set(s).insert(p.path@));
}

/// Finds the index the label lookup resolves to: the last matching one.
fn lookup_exec(ps: &Vec<Project>, label: &String, home: &str) -> (r: Option<usize>)
    ensures
        match r {
            Some(j) => j < ps@.len() && lookup_label(ps@, label@, home@) == Some(ps@[j as int]),
            None => lookup_label(ps@, label@, home@) is None,
        },
{
    let mut j: usize = ps.len();
    proof {
        assert(ps@.take(j as int) =~= ps@);
    }
    while j > 0
        invariant
            j <= ps@.len(),
            lookup_label(ps@, label@, home@) == lookup_label(ps@.take(j as int), label@, home@),
        decreases j,
    {
        let idx = j - 1;
        let l = ps[idx].display_label(home);
        proof {
            assert(ps@.take(j as int).last() == ps@[idx as int]);
            assert(ps@.take(j as int).drop_last() =~= ps@.take(idx as int));
        }
        if l.eq(label) {
            return Some(idx);
        }
        j = idx;
    }
    None
}

/// Reorders the candidates by the history, most recently used first;
/// candidates never found in the history keep their relative order, and
/// each path is emitted once.
pub fn reorder_projects_by_history(
    history: &Vec<String>,
    projects: &Vec<Project>,
    home: &str,
) -> (r: Vec<Project>)
    ensures
        r@ == reorder_spec(history.deep_view(), projects@, home@),
{
    let ghost h = history.deep_view();
    let ghost front_full = reorder_hist(h, projects@, home@, Set::empty());
    let mut r: Vec<Project> = Vec::new();
    let mut i: usize = 0;
    proof {
        assert(h.skip(0) =~= h);
        assert(path_set(r@) =~= Set::<Seq<char>>::empty());
    }
    while i < history.len()
        invariant
            i <= h.len(),
            h == history.deep_view(),
            front_full == r@ + reorder_hist(h.skip(i as int), projects@, home@, path_set(r@)),
        decreases h.len() - i,
    {
        proof {
            assert(h.skip(i as int)[0] == h[i as int]);
            assert(h.skip(i as int).skip(1) =~= h.skip(i + 1));
        }
        match lookup_exec(projects, &history[i], home) {
            Some(jdx) => {
                if !crate::aggregate::contains_path(&r, &projects[jdx].path) {
                    let ghost pre = r@;
                    r.push(Project { path: projects[jdx].path.clone() });
                    proof {
                        assert(r@ =~= pre.push(projects@[jdx as int]));
                        lemma_path_set_push(pre, projects@[jdx as int]);
                    }
                }
            },
            None => {},
        }
        i += 1;
    }
    proof {
        assert(h.skip(h.len() as int) =~= Seq::<Seq<char>>::empty());
        assert(r@ == front_full);
        assert(projects@.skip(0) =~= projects@);
    }
    let ghost front = r@;
    let mut k: usize = 0;
    while k < projects.len()
        invariant
            k <= projects@.len(),
            front == front_full,
            reorder_spec(h, projects@, home@) == r@ + reorder_rest(
                projects@.skip(k as int),
                path_set(r@),
            ),
        decreases projects@.len() - k,
    {
        proof {
            assert(projects@.skip(k as int)[0] == projects@[k as int]);
            assert(projects@.skip(k as int).skip(1) =~= projects@.skip(k + 1));
        }
        if !crate::aggregate::contains_path(&r, &projects[k].path) {
            let ghost pre = r@;
            r.push(Project { path: projects[k].path.clone() });
            proof {
                assert(r@ =~= pre.push(projects@[k as int]));
                lemma_path_set_push(pre, projects@[k as int]);
            }
        }
        k += 1;
    }
    proof {
        assert(projects@.skip(projects@.len() as int) =~= Seq::<Project>::empty());
    }
    r
}

/// A looked-up candidate is one of the candidates.
pub proof fn lemma_lookup_label_contains(ps: Seq<Project>, label: Seq<char>, home: Seq<char>)
    ensures
        match lookup_label(ps, label, home) {
            Some(p) => ps.contains(p),
            None => true,
        },
    decreases ps.len(),
{
    if ps.len() > 0 {
        if label_spec(ps.last().path@, home) == label {
            assert(ps[ps.len() - 1] == ps.last());
        } else {
            lemma_lookup_label_contains(ps.drop_last(), label, home);
            match lookup_label(ps.drop_last(), label, home) {
                Some(p) => {
                    let j = choose|j: int| 0 <= j < ps.len() - 1 && ps.drop_last()[j] == p;
                    assert(ps[j] == p);
                },
                None => {},
            }
        }
    }
}

/// Every project the history front emits is a candidate.
pub proof fn lemma_reorder_hist_elems(
    h: Seq<Seq<char>>,
    ps: Seq<Project>,
    home: Seq<char>,
    seen: Set<Seq<char>>,
)
    ensures
        forall|x: Project| #[trigger]
            reorder_hist(h, ps, home, seen).contains(x) ==> ps.contains(x),
    decreases h.len(),
{
    if h.len() > 0 {
        lemma_lookup_label_contains(ps, h[0], home);
        lemma_reorder_hist_elems(h.skip(1), ps, home, seen);
        match lookup_label(ps, h[0], home) {
            Some(p) => {
                lemma_reorder_hist_elems(h.skip(1), ps, home, seen.insert(p.path@));
            },
            None => {},
        }
        assert forall|x: Project| #[trigger]
            reorder_hist(h, ps, home, seen).contains(x) implies ps.contains(x) by {
            match lookup_label(ps, h[0], home) {
                Some(p) => {
                    if !seen.contains(p.path@) {
                        let tail = reorder_hist(h.skip(1), ps, home, seen.insert(p.path@));
                        let j = choose|j: int|
                            0 <= j < tail.len() + 1 && (seq![p] + tail)[j] == x;
                        if j == 0 {
                        } else {
                            assert(tail[j - 1] == x);
                            assert(tail.contains(x));
                        }
                    } else {
                        assert(reorder_hist(h.skip(1), ps, home, seen).contains(x));
                    }
                },
                None => {
                    assert(reorder_hist(h.skip(1), ps, home, seen).contains(x));
                },
            }
        };
    }
}

/// Every project the remainder emits is a candidate.
pub proof fn lemma_reorder_rest_elems(ps: Seq<Project>, seen: Set<Seq<char>>)
    ensures
        forall|x: Project| #[trigger] reorder_rest(ps, seen).contains(x) ==> ps.contains(x),
    decreases ps.len(),
{
    if ps.len() > 0 {
        lemma_reorder_rest_elems(ps.skip(1), seen.insert(ps[0].path@));
        lemma_reorder_rest_elems(ps.skip(1), seen);
        assert forall|x: Project| #[trigger]
            reorder_rest(ps, seen).contains(x) implies ps.contains(x) by {
            if !seen.contains(ps[0].path@) {
                let tail = reorder_rest(ps.skip(1), seen.insert(ps[0].path@));
                let j = choose|j: int| 0 <= j < tail.len() + 1 && (seq![ps[0]] + tail)[j] == x;
                if j == 0 {
                    assert(ps[0] == x);
                } else {
                    assert(tail[j - 1] == x);
                    assert(tail.contains(x));
                    let k = choose|k: int| 0 <= k < ps.len() - 1 && ps.skip(1)[k] == x;
                    assert(ps[k + 1] == x);
                }
            } else {
                assert(reorder_rest(ps.skip(1), seen).contains(x));
                let k = choose|k: int| 0 <= k < ps.len() - 1 && ps.skip(1)[k] == x;
                assert(ps[k + 1] == x);
            }
        };
    }
}

/// Every ranked project is a candidate.
pub proof fn lemma_reorder_spec_elems(h: Seq<Seq<char>>, ps: Seq<Project>, home: Seq<char>)
    ensures
        forall|x: Project| #[trigger] reorder_spec(h, ps, home).contains(x) ==> ps.contains(x),
{
    let front = reorder_hist(h, ps, home, Set::empty());
    let back = reorder_rest(ps, path_set(front));
    lemma_reorder_hist_elems(h, ps, home, Set::empty());
    lemma_reorder_rest_elems(ps, path_set(front));
    assert forall|x: Project| #[trigger]
        reorder_spec(h, ps, home).contains(x) implies ps.contains(x) by {
        let j = choose|j: int|
            0 <= j < front.len() + back.len() && (front + back)[j] == x;
        if j < front.len() {
            assert(front[j] == x);
            assert(front.contains(x));
        } else {
            assert(back[j - front.len()] == x);
            assert(back.contains(x));
        }
    };
}

/// The history front never repeats a path and never emits a seen one.
proof fn lemma_reorder_hist_paths(
    h: Seq<Seq<char>>,
    ps: Seq<Project>,
    home: Seq<char>,
    seen: Set<Seq<char>>,
)
    ensures
        forall|x: Project| #[trigger]
            reorder_hist(h, ps, home, seen).contains(x) ==> !seen.contains(x.path@),
        all_distinct(paths_of(reorder_hist(h, ps, home, seen))),
    decreases h.len(),
{
    if h.len() > 0 {
        match lookup_label(ps, h[0], home) {
            Some(p) => {
                lemma_reorder_hist_paths(h.skip(1), ps, home, seen.insert(p.path@));
                lemma_reorder_hist_paths(h.skip(1), ps, home, seen);
                if !seen.contains(p.path@) {
                    let tail = reorder_hist(h.skip(1), ps, home, seen.insert(p.path@));
                    let whole = seq![p] + tail;
                    assert forall|x: Project| #[trigger]
                        whole.contains(x) implies !seen.contains(x.path@) by {
                        let j = choose|j: int| 0 <= j < whole.len() && whole[j] == x;
                        if j > 0 {
                            assert(tail[j - 1] == x);
                            assert(tail.contains(x));
                        }
                    };
                    assert(paths_of(whole) =~= seq![p.path@] + paths_of(tail));
                    assert forall|i: int, j: int|
                        0 <= i < j < paths_of(whole).len() implies paths_of(whole)[i] != paths_of(
                        whole,
                    )[j] by {
                        if i == 0 {
                            assert(paths_of(whole)[j] == tail[j - 1].path@);
                            assert(tail.contains(tail[j - 1]));
                            assert(!seen.insert(p.path@).contains(tail[j - 1].path@));
                        } else {
                            assert(paths_of(whole)[i] == paths_of(tail)[i - 1]);
                            assert(paths_of(whole)[j] == paths_of(tail)[j - 1]);
                        }
                    };
                } else {
                    assert forall|x: Project| #[trigger]
                        reorder_hist(h, ps, home, seen).contains(x) implies !seen.contains(
                        x.path@,
                    ) by {
                        assert(reorder_hist(h.skip(1), ps, home, seen).contains(x));
                    };
                }
            },
            None => {
                lemma_reorder_hist_paths(h.skip(1), ps, home, seen);
                assert forall|x: Project| #[trigger]
                    reorder_hist(h, ps, home, seen).contains(x) implies !seen.contains(
                    x.path@,
                ) by {
                    assert(reorder_hist(h.skip(1), ps, home, seen).contains(x));
                };
            },
        }
    }
}

/// The remainder never repeats a path and never emits a seen one.
proof fn lemma_reorder_rest_paths(ps: Seq<Project>, seen: Set<Seq<char>>)
    ensures
        forall|x: Project| #[trigger]
            reorder_rest(ps, seen).contains(x) ==> !seen.contains(x.path@),
        all_distinct(paths_of(reorder_rest(ps, seen))),
    decreases ps.len(),
{
    if ps.len() > 0 {
        lemma_reorder_rest_paths(ps.skip(1), seen.insert(ps[0].path@));
        lemma_reorder_rest_paths(ps.skip(1), seen);
        if !seen.contains(ps[0].path@) {
            let tail = reorder_rest(ps.skip(1), seen.insert(ps[0].path@));
            let whole = seq![ps[0]] + tail;
            assert forall|x: Project| #[trigger]
                whole.contains(x) implies !seen.contains(x.path@) by {
                let j = choose|j: int| 0 <= j < whole.len() && whole[j] == x;
                if j > 0 {
                    assert(tail[j - 1] == x);
                    assert(tail.contains(x));
                }
            };
            assert(paths_of(whole) =~= seq![ps[0].path@] + paths_of(tail));
            assert forall|i: int, j: int|
                0 <= i < j < paths_of(whole).len() implies paths_of(whole)[i] != paths_of(
                whole,
            )[j] by {
                if i == 0 {
                    assert(paths_of(whole)[j] == tail[j - 1].path@);
                    assert(tail.contains(tail[j - 1]));
                    assert(!seen.insert(ps[0].path@).contains(tail[j - 1].path@));
                } else {
                    assert(paths_of(whole)[i] == paths_of(tail)[i - 1]);
                    assert(paths_of(whole)[j] == paths_of(tail)[j - 1]);
                }
            };
        } else {
            assert forall|x: Project| #[trigger]
                reorder_rest(ps, seen).contains(x) implies !seen.contains(x.path@) by {
                assert(reorder_rest(ps.skip(1), seen).contains(x));
            };
        }
    }
}

/// The remainder emits every candidate whose path is unseen, when paths
/// are distinct.
proof fn lemma_reorder_rest_complete(ps: Seq<Project>, seen: Set<Seq<char>>)
    requires
        all_distinct(paths_of(ps)),
    ensures
        forall|i: int|
            0 <= i < ps.len() && !seen.contains(ps[i].path@) ==> #[trigger] reorder_rest(
                ps,
                seen,
            ).contains(ps[i]),
    decreases ps.len(),
{
    if ps.len() > 0 {
        assert(all_distinct(paths_of(ps.skip(1)))) by {
            assert(paths_of(ps.skip(1)) =~= paths_of(ps).skip(1));
        };
        lemma_reorder_rest_complete(ps.skip(1), seen.insert(ps[0].path@));
        lemma_reorder_rest_complete(ps.skip(1), seen);
        assert forall|i: int|
            0 <= i < ps.len() && !seen.contains(ps[i].path@) implies #[trigger] reorder_rest(
            ps,
            seen,
        ).contains(ps[i]) by {
            if !seen.contains(ps[0].path@) {
                let tail = reorder_rest(ps.skip(1), seen.insert(ps[0].path@));
                let whole = seq![ps[0]] + tail;
                if i == 0 {
                    assert(whole[0] == ps[0]);
                } else {
                    assert(paths_of(ps)[0] != paths_of(ps)[i]);
                    assert(ps.skip(1)[i - 1] == ps[i]);
                    assert(!seen.insert(ps[0].path@).contains(ps[i].path@));
                    assert(tail.contains(ps[i]));
                    let j = choose|j: int| 0 <= j < tail.len() && tail[j] == ps[i];
                    assert(whole[j + 1] == ps[i]);
                }
            } else {
                assert(i != 0);
                assert(ps.skip(1)[i - 1] == ps[i]);
                assert(reorder_rest(ps.skip(1), seen).contains(ps[i]));
            }
        };
    }
}

/// The permutation law of the ranking: over candidates with distinct
/// paths, the ranked sequence holds exactly the candidates, each path
/// once.
pub proof fn lemma_reorder_permutation(h: Seq<Seq<char>>, ps: Seq<Project>, home: Seq<char>)
    requires
        all_distinct(paths_of(ps)),
    ensures
        forall|p: Project| ps.contains(p) <==> #[trigger] reorder_spec(h, ps, home).contains(p),
        all_distinct(paths_of(reorder_spec(h, ps, home))),
{
    let front = reorder_hist(h, ps, home, Set::empty());
    let back = reorder_rest(ps, path_set(front));
    let whole = front + back;
    lemma_reorder_spec_elems(h, ps, home);
    lemma_reorder_hist_elems(h, ps, home, Set::empty());
    lemma_reorder_hist_paths(h, ps, home, Set::empty());
    lemma_reorder_rest_paths(ps, path_set(front));
    lemma_reorder_rest_complete(ps, path_set(front));
    assert forall|p: Project| ps.contains(p) implies #[trigger] whole.contains(p) by {
        let i = choose|i: int| 0 <= i < ps.len() && ps[i] == p;
        if path_set(front).contains(p.path@) {
            let k = choose|k: int| 0 <= k < front.len() && paths_of(front)[k] == p.path@;
            let q = front[k];
            assert(front.contains(q));
            assert(ps.contains(q));
            let iq = choose|iq: int| 0 <= iq < ps.len() && ps[iq] == q;
            assert(paths_of(ps)[iq] == paths_of(ps)[i]);
            assert(iq == i);
            assert(whole[k] == p);
        } else {
            assert(back.contains(ps[i]));
            let k = choose|k: int| 0 <= k < back.len() && back[k] == p;
            assert(whole[front.len() + k] == p);
        }
    };
    assert forall|p: Project| #[trigger] whole.contains(p) implies ps.contains(p) by {
        assert(reorder_spec(h, ps, home).contains(p));
    };
    assert(paths_of(whole) =~= paths_of(front) + paths_of(back));
    assert forall|i: int, j: int|
        0 <= i < j < paths_of(whole).len() implies paths_of(whole)[i] != paths_of(whole)[j] by {
        let fl = front.len() as int;
        if j < fl {
            assert(paths_of(whole)[i] == paths_of(front)[i]);
            assert(paths_of(whole)[j] == paths_of(front)[j]);
        } else if i >= fl {
            assert(paths_of(whole)[i] == paths_of(back)[i - fl]);
            assert(paths_of(whole)[j] == paths_of(back)[j - fl]);
        } else {
            assert(paths_of(whole)[i] == paths_of(front)[i]);
            assert(paths_of(whole)[j] == paths_of(back)[j - fl]);
            assert(back.contains(back[j - fl]));
            assert(!path_set(front).contains(back[j - fl].path@));
            assert(paths_of(front).contains(paths_of(front)[i]));
        }
    };
}

/// The candidates whose path is not among `seen`, in their original order.
pub open spec fn not_seen(ps: Seq<Project>, seen: Set<Seq<char>>) -> Seq<Project> {
    ps.filter(|p: Project| !seen.contains(p.path@))
}

/// Front decomposition of the path filter.
proof fn lemma_not_seen_decompose(ps: Seq<Project>, seen: Set<Seq<char>>)
    requires
        ps.len() > 0,
    ensures
        not_seen(ps, seen) == (if !seen.contains(ps[0].path@) {
            seq![ps[0]]
        } else {
            Seq::<Project>::empty()
        }) + not_seen(ps.skip(1), seen),
    decreases ps.len(),
{
    reveal(Seq::filter);
    let front0: Seq<Project> = if !seen.contains(ps[0].path@) {
        seq![ps[0]]
    } else {
        Seq::empty()
    };
    if ps.len() == 1 {
        assert(ps.drop_last() =~= Seq::<Project>::empty());
        assert(ps.skip(1) =~= Seq::<Project>::empty());
        assert(ps.last() == ps[0]);
        assert(not_seen(ps, seen) =~= front0 + not_seen(ps.skip(1), seen));
    } else {
        lemma_not_seen_decompose(ps.drop_last(), seen);
        assert(ps.drop_last()[0] == ps[0]);
        assert(ps.drop_last().skip(1) =~= ps.skip(1).drop_last());
        assert(ps.skip(1).last() == ps.last());
        assert(not_seen(ps, seen) =~= front0 + not_seen(ps.skip(1), seen));
    }
}

/// A path no candidate carries never changes what the remainder emits.
proof fn lemma_reorder_rest_seen_irrelevant(ps: Seq<Project>, seen: Set<Seq<char>>, x: Seq<char>)
    requires
        !paths_of(ps).contains(x),
    ensures
        reorder_rest(ps, seen.insert(x)) == reorder_rest(ps, seen),
    decreases ps.len(),
{
    if ps.len() > 0 {
        assert(paths_of(ps)[0] == ps[0].path@);
        assert(ps[0].path@ != x);
        assert(!paths_of(ps.skip(1)).contains(x)) by {
            assert(paths_of(ps.skip(1)) =~= paths_of(ps).skip(1));
            if paths_of(ps.skip(1)).contains(x) {
                let k = choose|k: int| 0 <= k < ps.len() - 1 && paths_of(ps).skip(1)[k] == x;
                assert(paths_of(ps)[k + 1] == x);
            }
        };
        lemma_reorder_rest_seen_irrelevant(ps.skip(1), seen.insert(ps[0].path@), x);
        lemma_reorder_rest_seen_irrelevant(ps.skip(1), seen, x);
        if !seen.contains(ps[0].path@) {
            assert(!seen.insert(x).contains(ps[0].path@));
            assert(seen.insert(x).insert(ps[0].path@) =~= seen.insert(ps[0].path@).insert(x));
        } else {
            assert(seen.insert(x).contains(ps[0].path@));
        }
    }
}

/// Over candidates with distinct paths, the remainder is exactly the path
/// filter: the never-selected candidates in their original order.
proof fn lemma_reorder_rest_is_filter(ps: Seq<Project>, seen: Set<Seq<char>>)
    requires
        all_distinct(paths_of(ps)),
    ensures
        reorder_rest(ps, seen) == not_seen(ps, seen),
    decreases ps.len(),
{
    if ps.len() == 0 {
        reveal(Seq::filter);
        assert(not_seen(ps, seen) =~= Seq::<Project>::empty());
    } else {
        lemma_not_seen_decompose(ps, seen);
        assert(all_distinct(paths_of(ps.skip(1)))) by {
            assert(paths_of(ps.skip(1)) =~= paths_of(ps).skip(1));
        };
        lemma_reorder_rest_is_filter(ps.skip(1), seen);
        if !seen.contains(ps[0].path@) {
            assert(!paths_of(ps.skip(1)).contains(ps[0].path@)) by {
                assert(paths_of(ps.skip(1)) =~= paths_of(ps).skip(1));
                if paths_of(ps.skip(1)).contains(ps[0].path@) {
                    let k = choose|k: int|
                        0 <= k < ps.len() - 1 && paths_of(ps).skip(1)[k] == ps[0].path@;
                    assert(paths_of(ps)[k + 1] == paths_of(ps)[0]);
                }
            };
            lemma_reorder_rest_seen_irrelevant(ps.skip(1), seen, ps[0].path@);
            assert(reorder_rest(ps, seen) =~= not_seen(ps, seen));
        } else {
            assert(reorder_rest(ps, seen) =~= not_seen(ps, seen));
        }
    }
}

/// The order law of the ranking: after the history hits, the candidates
/// never selected follow in exactly their original order.
pub proof fn lemma_reorder_tail_order(h: Seq<Seq<char>>, ps: Seq<Project>, home: Seq<char>)
    requires
        all_distinct(paths_of(ps)),
    ensures
        reorder_spec(h, ps, home) == reorder_hist(h, ps, home, Set::empty()) + not_seen(
            ps,
            path_set(reorder_hist(h, ps, home, Set::empty())),
        ),
{
    lemma_reorder_rest_is_filter(ps, path_set(reorder_hist(h, ps, home, Set::empty())));
}

/// The first candidate whose display label is `label`, if any.
pub fn find_by_label(projects: &Vec<Project>, label: &String, home: &str) -> (r: Option<usize>)
    ensures
        match r {
            Some(i) => {
                &&& i < projects@.len()
                &&& label_spec(projects@[i as int].path@, home@) == label@
                &&& forall|j: int|
                    0 <= j < i ==> label_spec(projects@[j].path@, home@) != label@
            },
            None => forall|j: int|
                0 <= j < projects@.len() ==> label_spec(projects@[j].path@, home@) != label@,
        },
{
    let mut i: usize = 0;
    while i < projects.len()
        invariant
            i <= projects@.len(),
            forall|j: int| 0 <= j < i ==> label_spec(projects@[j].path@, home@) != label@,
        decreases projects@.len() - i,
    {
        let l = projects[i].display_label(home);
        if l.eq(label) {
            return Some(i);
        }
        i += 1;
    }
    None
}

} // verus!
