use git_cliff_core::commit::{Commit, CommitGroup};
use git_cliff_core::error::FilterError;
use git_cliff_core::grouping::{collect_group, commit_groups, group_commits, group_position};

fn commit(id: &str, message: &str, group: &str) -> Commit {
    Commit::with_group(id.to_string(), message.to_string(), group.to_string())
}

fn names(list: &[&str]) -> Vec<String> {
    list.iter().map(|s| s.to_string()).collect()
}

fn ids(section: &CommitGroup) -> Vec<&str> {
    section.commits.iter().map(|c| c.id.as_str()).collect()
}

#[test]
fn groups_follow_the_ordering_list() {
    let commits = vec![
        commit("A", "a", "fix"),
        commit("B", "b", "feat"),
        commit("C", "c", "fix"),
        commit("D", "d", "feat"),
    ];
    let out = group_commits(&commits, &names(&["feat", "fix"])).unwrap();
    assert_eq!(out.len(), 2);
    assert_eq!(out[0].group, "feat");
    assert_eq!(ids(&out[0]), vec!["B", "D"]);
    assert_eq!(out[1].group, "fix");
    assert_eq!(ids(&out[1]), vec!["A", "C"]);
}

#[test]
fn group_order_does_not_depend_on_input_order() {
    let ordering = names(&["feat", "fix"]);
    let first = vec![commit("A", "a", "fix"), commit("B", "b", "feat")];
    let second = vec![commit("B", "b", "feat"), commit("A", "a", "fix")];
    let x = group_commits(&first, &ordering).unwrap();
    let y = group_commits(&second, &ordering).unwrap();
    let gx: Vec<&str> = x.iter().map(|g| g.group.as_str()).collect();
    let gy: Vec<&str> = y.iter().map(|g| g.group.as_str()).collect();
    assert_eq!(gx, vec!["feat", "fix"]);
    assert_eq!(gx, gy);
}

#[test]
fn unlisted_groups_are_dropped_and_order_kept() {
    let commits = vec![
        commit("1", "one", "chore"),
        commit("2", "two", "fix"),
        commit("3", "three", "docs"),
        commit("4", "four", "fix"),
        commit("5", "five", "fix"),
    ];
    let out = group_commits(&commits, &names(&["fix"])).unwrap();
    assert_eq!(out.len(), 1);
    assert_eq!(out[0].group, "fix");
    assert_eq!(ids(&out[0]), vec!["2", "4", "5"]);
    assert_eq!(out[0].commits[1], commits[3]);
}

#[test]
fn listed_group_without_commits_has_no_section() {
    let commits = vec![commit("1", "one", "fix")];
    let out = group_commits(&commits, &names(&["feat", "fix", "docs"])).unwrap();
    assert_eq!(out.len(), 1);
    assert_eq!(out[0].group, "fix");
}

#[test]
fn repeated_names_in_ordering_list_give_one_section() {
    let commits = vec![commit("1", "one", "fix"), commit("2", "two", "feat")];
    let out = group_commits(&commits, &names(&["fix", "feat", "fix"])).unwrap();
    assert_eq!(out.len(), 2);
    assert_eq!(out[0].group, "fix");
    assert_eq!(out[1].group, "feat");
}

#[test]
fn no_commits_give_no_sections() {
    let out = group_commits(&Vec::new(), &names(&["feat", "fix"])).unwrap();
    assert!(out.is_empty());
}

#[test]
fn empty_ordering_list_drops_everything() {
    let commits = vec![commit("1", "one", "fix")];
    let out = group_commits(&commits, &Vec::new()).unwrap();
    assert!(out.is_empty());
}

#[test]
fn commit_without_group_is_an_error() {
    let commits = vec![
        commit("1", "one", "fix"),
        Commit::new("2".to_string(), "two".to_string()),
        Commit::new("3".to_string(), "three".to_string()),
    ];
    let r = group_commits(&commits, &names(&["fix"]));
    assert_eq!(r, Err(FilterError::UngroupedCommit(1)));
}

#[test]
fn missing_groups_argument_is_an_error() {
    let commits = vec![commit("1", "one", "fix")];
    assert_eq!(commit_groups(&commits, None), Err(FilterError::MissingArgument));
    assert_eq!(commit_groups(&Vec::new(), None), Err(FilterError::MissingArgument));
}

#[test]
fn present_groups_argument_groups_commits() {
    let commits = vec![commit("1", "one", "fix"), commit("2", "two", "feat")];
    let ordering = names(&["feat", "fix"]);
    let out = commit_groups(&commits, Some(&ordering)).unwrap();
    assert_eq!(out.len(), 2);
    assert_eq!(out[0].group, "feat");
    assert_eq!(ids(&out[1]), vec!["1"]);
}

#[test]
fn position_of_names() {
    let ordering = names(&["feat", "fix", "feat"]);
    assert_eq!(group_position(&ordering, &"feat".to_string()), 0);
    assert_eq!(group_position(&ordering, &"fix".to_string()), 1);
    assert_eq!(group_position(&ordering, &"docs".to_string()), 3);
}

#[test]
fn collect_group_keeps_input_order() {
    let commits = vec![
        commit("1", "one", "fix"),
        commit("2", "two", "feat"),
        commit("3", "three", "fix"),
    ];
    let got = collect_group(&commits, &"fix".to_string());
    assert_eq!(got, vec![commits[0].clone(), commits[2].clone()]);
    assert!(collect_group(&commits, &"docs".to_string()).is_empty());
}

#[test]
fn sections_hold_each_retained_commit_once() {
    let commits = vec![
        commit("1", "one", "fix"),
        commit("2", "two", "chore"),
        commit("3", "three", "feat"),
        commit("4", "four", "fix"),
        commit("5", "five", "feat"),
    ];
    let out = group_commits(&commits, &names(&["fix", "feat"])).unwrap();
    let mut flat: Vec<&str> = out.iter().flat_map(|g| ids(g)).collect();
    assert_eq!(flat, vec!["1", "4", "3", "5"]);
    flat.sort();
    assert_eq!(flat, vec!["1", "3", "4", "5"]);
}

#[test]
fn same_named_sections_hold_same_commits_in_any_input_order() {
    let ordering = names(&["feat", "fix"]);
    let first = vec![commit("A", "a", "fix"), commit("B", "b", "feat"), commit("C", "c", "fix")];
    let second = vec![commit("C", "c", "fix"), commit("B", "b", "feat"), commit("A", "a", "fix")];
    let x = group_commits(&first, &ordering).unwrap();
    let y = group_commits(&second, &ordering).unwrap();
    assert_eq!(ids(&x[1]), vec!["A", "C"]);
    assert_eq!(ids(&y[1]), vec!["C", "A"]);
    assert_eq!(ids(&x[0]), ids(&y[0]));
}
