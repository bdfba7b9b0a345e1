use jumper::aggregate::{assemble_projects, parse_project_list, session_name};
use jumper::cache::{plan_cache_use, CachePlan};
use jumper::entry::parse_entry;
use jumper::history::{apply_selection, reorder_projects_by_history, update_history};
use jumper::list_edit::{
    add_project_lines, apply_deletion, apply_set_depth, delete_project_lines, set_depth_lines,
    sort_lines,
};
use jumper::picker::build_picker_list;
use jumper::project::Project;
use jumper::session::{escape_label, plan_activation, session_listed, ConnectMode};

fn strings(v: &[&str]) -> Vec<String> {
    v.iter().map(|s| s.to_string()).collect()
}

fn projects(v: &[&str]) -> Vec<Project> {
    v.iter().map(|s| Project::new(s)).collect()
}

fn paths(v: &[Project]) -> Vec<String> {
    v.iter().map(|p| p.path.clone()).collect()
}

const HOME: &str = "/home/u";

#[test]
fn parse_plain_line() {
    let e = parse_entry("/a/b");
    assert_eq!(e.path, "/a/b");
    assert_eq!(e.depth, None);
}

#[test]
fn parse_depth_line() {
    let e = parse_entry("/a/b --depth 2");
    assert_eq!(e.path, "/a/b");
    assert_eq!(e.depth, Some(2));
}

#[test]
fn parse_depth_line_multi_digit() {
    let e = parse_entry("/x --depth 120");
    assert_eq!(e.path, "/x");
    assert_eq!(e.depth, Some(120));
}

#[test]
fn parse_malformed_depth_is_plain() {
    let e = parse_entry("/a/b --depth x");
    assert_eq!(e.path, "/a/b --depth x");
    assert_eq!(e.depth, None);
}

#[test]
fn parse_trailing_text_after_digits_is_plain() {
    let e = parse_entry("/a --depth 3xyz");
    assert_eq!(e.path, "/a --depth 3xyz");
    assert_eq!(e.depth, None);
}

#[test]
fn parse_double_marker_takes_last() {
    let e = parse_entry("/a --depth 1 --depth 2");
    assert_eq!(e.path, "/a --depth 1");
    assert_eq!(e.depth, Some(2));
}

#[test]
fn parse_overflowing_depth_is_plain() {
    let e = parse_entry("/a --depth 99999999999999999999");
    assert_eq!(e.path, "/a --depth 99999999999999999999");
    assert_eq!(e.depth, None);
}

#[test]
fn parse_empty_line() {
    let e = parse_entry("");
    assert_eq!(e.path, "");
    assert_eq!(e.depth, None);
}

#[test]
fn dedup_keeps_first_occurrence() {
    let lines = strings(&["/a", "/b", "/a"]);
    let entries = parse_project_list(&lines);
    let exps: Vec<Vec<String>> = vec![vec![], vec![], vec![]];
    let sessions = strings(&["/b", "/c"]);
    let r = assemble_projects(&entries, &exps, &sessions);
    assert_eq!(paths(&r), strings(&["/a", "/b", "/c"]));
}

#[test]
fn dedup_twice_changes_nothing() {
    let lines = strings(&["/a", "/a", "/b"]);
    let entries = parse_project_list(&lines);
    let exps: Vec<Vec<String>> = vec![vec![], vec![], vec![]];
    let r = assemble_projects(&entries, &exps, &strings(&[]));
    let again_lines = paths(&r);
    let again_entries = parse_project_list(&again_lines);
    let again_exps: Vec<Vec<String>> = vec![vec![], vec![]];
    let again = assemble_projects(&again_entries, &again_exps, &strings(&[]));
    assert_eq!(paths(&again), paths(&r));
}

#[test]
fn depth_expansion_includes_root_and_level_one() {
    // Entry "/a --depth 1" with a walk that returned "/a" and "/a/b";
    // "/a/b/c" lies below the depth and was not returned.
    let lines = strings(&["/a --depth 1"]);
    let entries = parse_project_list(&lines);
    assert_eq!(entries[0].depth, Some(1));
    let exps: Vec<Vec<String>> = vec![strings(&["/a", "/a/b"])];
    let r = assemble_projects(&entries, &exps, &strings(&[]));
    assert_eq!(paths(&r), strings(&["/a", "/a/b"]));
    assert!(!paths(&r).contains(&"/a/b/c".to_string()));
}

#[test]
fn walk_failure_leaves_only_root() {
    // A failed walk contributes no expansion: the root alone remains.
    let lines = strings(&["/a --depth 3"]);
    let entries = parse_project_list(&lines);
    let exps: Vec<Vec<String>> = vec![vec![]];
    let r = assemble_projects(&entries, &exps, &strings(&[]));
    assert_eq!(paths(&r), strings(&["/a"]));
}

#[test]
fn session_name_cuts_at_colon() {
    assert_eq!(session_name("work: 2 windows"), "work");
    assert_eq!(session_name("plain"), "plain");
    assert_eq!(session_name(""), "");
}

#[test]
fn history_ranking_wins_over_candidate_order() {
    let history = strings(&["/x", "/y"]);
    let cands = projects(&["/y", "/x", "/z"]);
    let r = reorder_projects_by_history(&history, &cands, HOME);
    assert_eq!(paths(&r), strings(&["/x", "/y", "/z"]));
}

#[test]
fn history_ranking_keeps_unvisited_order() {
    let history = strings(&["/c"]);
    let cands = projects(&["/a", "/b", "/c", "/d"]);
    let r = reorder_projects_by_history(&history, &cands, HOME);
    assert_eq!(paths(&r), strings(&["/c", "/a", "/b", "/d"]));
}

#[test]
fn history_ranking_ignores_unknown_labels() {
    let history = strings(&["/ghost"]);
    let cands = projects(&["/a"]);
    let r = reorder_projects_by_history(&history, &cands, HOME);
    assert_eq!(paths(&r), strings(&["/a"]));
}

#[test]
fn find_by_label_takes_first_match() {
    let cands = projects(&["/home/u/a.b", "/ab", "/z"]);
    // "/home/u/a.b" and "/ab" both carry the label "~/ab" resp. "/ab".
    let r = jumper::history::find_by_label(&cands, &"/ab".to_string(), HOME);
    assert_eq!(r, Some(1));
    let none = jumper::history::find_by_label(&cands, &"/ghost".to_string(), HOME);
    assert_eq!(none, None);
}

#[test]
fn cache_stale_when_older() {
    assert_eq!(plan_cache_use(Some(5), 10), CachePlan::Recompute);
}

#[test]
fn cache_fresh_when_newer_or_equal() {
    assert_eq!(plan_cache_use(Some(10), 5), CachePlan::UseCache);
    assert_eq!(plan_cache_use(Some(7), 7), CachePlan::UseCache);
}

#[test]
fn cache_absent_recomputes() {
    assert_eq!(plan_cache_use(None, 3), CachePlan::Recompute);
}

#[test]
fn history_cap_after_many_selections() {
    let mut history: Vec<String> = Vec::new();
    for n in 0..=2000u32 {
        let sel = format!("p{n}");
        history = update_history(&history, &sel);
    }
    assert_eq!(history.len(), 2000);
    assert_eq!(history[0], "p2000");
    assert_eq!(history[1999], "p1");
    assert!(!history.contains(&"p0".to_string()));
    let mut sorted = history.clone();
    sorted.sort();
    sorted.dedup();
    assert_eq!(sorted.len(), 2000);
}

#[test]
fn history_update_moves_to_front() {
    let history = strings(&["/x", "/y", "/z"]);
    let sel = "/y".to_string();
    let r = update_history(&history, &sel);
    assert_eq!(r, strings(&["/y", "/x", "/z"]));
}

#[test]
fn empty_selection_is_a_no_op() {
    let history = strings(&["/x"]);
    let r = apply_selection(&history, &"".to_string());
    assert!(r.is_none());
}

#[test]
fn nonempty_selection_updates_history() {
    let history = strings(&["/x"]);
    let r = apply_selection(&history, &"/y".to_string());
    assert_eq!(r, Some(strings(&["/y", "/x"])));
}

#[test]
fn picker_excludes_current_session_label() {
    let history = strings(&[]);
    let cands = projects(&["/x", "/y"]);
    let current = "/y".to_string();
    let r = build_picker_list(&history, &cands, Some(&current), HOME);
    assert_eq!(r, strings(&["/x"]));
}

#[test]
fn picker_excludes_current_even_when_in_history() {
    let history = strings(&["/y", "/x"]);
    let cands = projects(&["/x", "/y"]);
    let current = "/y".to_string();
    let r = build_picker_list(&history, &cands, Some(&current), HOME);
    assert_eq!(r, strings(&["/x"]));
}

#[test]
fn picker_lists_history_first_then_rest() {
    let history = strings(&["/b"]);
    let cands = projects(&["/a", "/b", "/c"]);
    let r = build_picker_list(&history, &cands, None, HOME);
    assert_eq!(r, strings(&["/b", "/a", "/c"]));
}

#[test]
fn label_replaces_home_with_tilde_and_strips_dots() {
    let p = Project::new("/home/u/proj.x");
    assert_eq!(p.display_label("/home/u"), "~/projx");
}

#[test]
fn label_replaces_alternate_root() {
    let p = Project::new("/run/media/fib/ExternalSSD/code/a.b");
    assert_eq!(p.display_label("/home/u"), "code/ab");
}

#[test]
fn label_leaves_other_paths() {
    let p = Project::new("/srv/data");
    assert_eq!(p.display_label("/home/u"), "/srv/data");
}

#[test]
fn own_home_prefix_shapes_labels() {
    let home = jumper::project::home_prefix();
    assert!(home.starts_with("/home/"));
    let p = Project::new("/nowhere/else");
    assert_eq!(p.to_fzf_display(), "/nowhere/else");
}

#[test]
fn escape_label_escapes_tilde() {
    assert_eq!(escape_label("~/ab"), "\\~/ab");
    assert_eq!(escape_label("plain"), "plain");
    assert_eq!(escape_label("~~"), "\\~\\~");
}

#[test]
fn session_listed_matches_name_prefix() {
    let lines = strings(&["work: 2 windows", "other: 1 window"]);
    assert!(session_listed(&lines, "work"));
    assert!(session_listed(&lines, "other"));
    assert!(!session_listed(&lines, "wor"));
    assert!(!session_listed(&lines, "absent"));
}

#[test]
fn activation_creates_only_when_absent() {
    let label = "~/proj".to_string();
    let p = plan_activation(&label, false, true);
    assert_eq!(p.create, Some("~/proj".to_string()));
    assert_eq!(p.target, "\\~/proj");
    assert_eq!(p.mode, ConnectMode::Switch);
    let q = plan_activation(&label, true, false);
    assert_eq!(q.create, None);
    assert_eq!(q.mode, ConnectMode::Attach);
}

#[test]
fn add_appends_only_new_paths() {
    let lines = strings(&["/a"]);
    assert_eq!(add_project_lines(&lines, &"/b".to_string()), strings(&["/a", "/b"]));
    assert_eq!(add_project_lines(&lines, &"/a".to_string()), strings(&["/a"]));
}

#[test]
fn delete_removes_selected_line() {
    let lines = strings(&["/a", "/b", "/a"]);
    assert_eq!(delete_project_lines(&lines, &"/a".to_string()), strings(&["/b"]));
}

#[test]
fn cancelled_deletion_is_a_no_op() {
    let lines = strings(&["/a", "/b"]);
    assert!(apply_deletion(&lines, &"".to_string()).is_none());
    assert_eq!(apply_deletion(&lines, &"/b".to_string()), Some(strings(&["/a"])));
}

#[test]
fn cancelled_depth_change_is_a_no_op() {
    let lines = strings(&["b", "a --depth 2"]);
    assert!(apply_set_depth(&lines, &"".to_string(), &"3".to_string()).is_none());
    assert_eq!(
        apply_set_depth(&lines, &"a".to_string(), &"3".to_string()),
        Some(strings(&["a --depth 3", "b"]))
    );
}

#[test]
fn sort_lines_orders_by_code_point() {
    let lines = strings(&["b", "a", "ab"]);
    assert_eq!(sort_lines(&lines), strings(&["a", "ab", "b"]));
}

#[test]
fn sort_lines_keeps_duplicates() {
    let lines = strings(&["b", "a", "b"]);
    assert_eq!(sort_lines(&lines), strings(&["a", "b", "b"]));
}

#[test]
fn ranking_label_collision_takes_last_candidate() {
    // "/a.b" and "/ab" share the display label "/ab"; the lookup keeps the
    // later candidate, and the earlier one still follows by path.
    let history = strings(&["/ab"]);
    let cands = projects(&["/a.b", "/ab"]);
    let r = reorder_projects_by_history(&history, &cands, HOME);
    assert_eq!(paths(&r), strings(&["/ab", "/a.b"]));
}

#[test]
fn set_depth_rewrites_and_sorts() {
    let lines = strings(&["b", "a --depth 2", "c"]);
    let r = set_depth_lines(&lines, &"a".to_string(), &"3".to_string());
    assert_eq!(r, strings(&["a --depth 3", "b", "c"]));
}

#[test]
fn set_depth_clears_with_empty_input() {
    let lines = strings(&["b", "a --depth 2"]);
    let r = set_depth_lines(&lines, &"a".to_string(), &"".to_string());
    assert_eq!(r, strings(&["a", "b"]));
}

#[test]
fn set_depth_keeps_plain_lines_of_same_prefix() {
    // A bare line starting with the chosen text carries no depth mark and
    // stays.
    let lines = strings(&["a", "a --depth 1"]);
    let r = set_depth_lines(&lines, &"a".to_string(), &"2".to_string());
    assert_eq!(r, strings(&["a", "a --depth 2"]));
}
