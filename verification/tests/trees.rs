use notion_fs::dict::Dict;
use notion_fs::listing::{list_directory, DirRow, FileKind};
use notion_fs::lookup::{describe_ticket, find_ticket, is_dir, path_exists_in, ticket_file_name};
use notion_fs::notion::Ticket;
use notion_fs::tree::{
    build_project_tree, collect_project, count_project, count_tree, resolve_assignee,
    resolve_status, Tree,
};

fn ticket(id: &str, assignee: &str, status: &str) -> Ticket {
    let mut t = Ticket::default();
    t.ticket_id = id.to_string();
    t.page_id = format!("page-{}", id);
    t.assignee = assignee.to_string();
    t.status = status.to_string();
    t
}

fn tickets() -> Vec<Ticket> {
    vec![
        ticket("GB-412", "Alice", "In Progress"),
        ticket("GB-1", "", "Done"),
        ticket("GB-319", "alice", "in_progress"),
        ticket("GB-2", "Đặng", ""),
    ]
}

fn tree() -> Tree {
    let mut slug_map: Dict<String> = Dict::new();
    let mut tree: Tree = Dict::new();
    tree.insert("genbook".to_string(), build_project_tree(&tickets(), &mut slug_map));
    tree.insert("empty".to_string(), build_project_tree(&vec![], &mut slug_map));
    tree
}

fn parts(names: &[&str]) -> Vec<String> {
    let mut list = Vec::new();
    for name in names {
        list.push(name.to_string());
    }
    list
}

fn names(rows: &Vec<DirRow>) -> Vec<String> {
    let mut list = Vec::new();
    for row in rows {
        list.push(row.name.clone());
    }
    list
}

#[test]
fn unnamed_assignees_and_statuses_have_fallbacks() {
    assert_eq!(resolve_assignee(&ticket("A-1", "", "")), "unassigned");
    assert_eq!(resolve_status(&ticket("A-1", "", "")), "no-status");
    assert_eq!(resolve_assignee(&ticket("A-1", "Alice", "Done")), "Alice");
    assert_eq!(resolve_status(&ticket("A-1", "Alice", "Done")), "Done");
}

#[test]
fn tickets_are_under_their_assignee_and_status() {
    let mut slug_map: Dict<String> = Dict::new();
    let project = build_project_tree(&tickets(), &mut slug_map);
    assert_eq!(project.len(), 3);
    let alice = project.get("alice").unwrap();
    assert_eq!(alice.len(), 1);
    let list = alice.get("in-progress").unwrap();
    assert_eq!(list.len(), 2);
    assert_eq!(list[0].ticket_id, "GB-412");
    assert_eq!(list[1].ticket_id, "GB-319");
    assert_eq!(project.get("unassigned").unwrap().get("done").unwrap().len(), 1);
    assert_eq!(project.get("dang").unwrap().get("no-status").unwrap().len(), 1);
}

#[test]
fn slugs_stand_for_the_last_display_name() {
    let mut slug_map: Dict<String> = Dict::new();
    build_project_tree(&tickets(), &mut slug_map);
    assert_eq!(slug_map.get("alice").unwrap(), "alice");
    assert_eq!(slug_map.get("in-progress").unwrap(), "in_progress");
    assert_eq!(slug_map.get("dang").unwrap(), "Đặng");
    assert_eq!(slug_map.get("unassigned").unwrap(), "unassigned");
    assert_eq!(slug_map.get("no-status").unwrap(), "no-status");
    assert_eq!(slug_map.get("done").unwrap(), "Done");
    assert_eq!(slug_map.len(), 6);
}

#[test]
fn other_slugs_lead_where_they_led() {
    let mut slug_map: Dict<String> = Dict::new();
    slug_map.insert("elsewhere".to_string(), "Elsewhere".to_string());
    slug_map.insert("done".to_string(), "DONE".to_string());
    build_project_tree(&tickets(), &mut slug_map);
    assert_eq!(slug_map.get("elsewhere").unwrap(), "Elsewhere");
    assert_eq!(slug_map.get("done").unwrap(), "Done");
}

#[test]
fn no_ticket_is_lost() {
    let tree = tree();
    assert_eq!(count_project(tree.get("genbook").unwrap()), 4);
    assert_eq!(count_project(tree.get("empty").unwrap()), 0);
    assert_eq!(count_tree(&tree), 4);
}

#[test]
fn collected_tickets_make_the_same_tree() {
    let tree = tree();
    let project = tree.get("genbook").unwrap();
    let collected = collect_project(project);
    assert_eq!(collected.len(), 4);
    let mut slug_map: Dict<String> = Dict::new();
    let again = build_project_tree(&collected, &mut slug_map);
    assert_eq!(again.len(), project.len());
    for i in 0..project.len() {
        let assignee = project.key_at(i);
        let dirs = project.value_at(i);
        for j in 0..dirs.len() {
            let status = dirs.key_at(j);
            assert_eq!(again.get(assignee).unwrap().get(status).unwrap(), dirs.value_at(j));
        }
    }
}

#[test]
fn paths_lead_to_projects_assignees_statuses_and_tickets() {
    let tree = tree();
    assert!(path_exists_in(&tree, &parts(&[])));
    assert!(path_exists_in(&tree, &parts(&["genbook"])));
    assert!(path_exists_in(&tree, &parts(&["empty"])));
    assert!(!path_exists_in(&tree, &parts(&["other"])));
    assert!(path_exists_in(&tree, &parts(&["genbook", "alice"])));
    assert!(!path_exists_in(&tree, &parts(&["genbook", "Alice"])));
    assert!(path_exists_in(&tree, &parts(&["genbook", ".refresh"])));
    assert!(path_exists_in(&tree, &parts(&["empty", ".refresh"])));
    assert!(!path_exists_in(&tree, &parts(&["other", ".refresh"])));
    assert!(path_exists_in(&tree, &parts(&["genbook", "alice", "in-progress"])));
    assert!(!path_exists_in(&tree, &parts(&["genbook", "alice", "done"])));
    assert!(!path_exists_in(&tree, &parts(&["genbook", "alice", ".refresh"])));
    assert!(path_exists_in(&tree, &parts(&["genbook", "alice", "in-progress", "GB-319.md"])));
    assert!(!path_exists_in(&tree, &parts(&["genbook", "alice", "in-progress", "GB-319"])));
    assert!(!path_exists_in(&tree, &parts(&["genbook", "alice", "in-progress", "GB-319.md", "x"])));
}

#[test]
fn every_ticket_has_its_file() {
    let tree = tree();
    for (t, assignee, status) in [
        ("GB-412.md", "alice", "in-progress"),
        ("GB-1.md", "unassigned", "done"),
        ("GB-319.md", "alice", "in-progress"),
        ("GB-2.md", "dang", "no-status"),
    ] {
        let found = find_ticket(&tree, "genbook", assignee, status, t).unwrap();
        assert_eq!(ticket_file_name(found), t);
    }
    assert!(find_ticket(&tree, "genbook", "alice", "in-progress", "GB-1.md").is_none());
}

#[test]
fn directories_go_by_depth() {
    assert!(is_dir(&parts(&[])));
    assert!(is_dir(&parts(&["p"])));
    assert!(is_dir(&parts(&["p", "a"])));
    assert!(!is_dir(&parts(&["p", ".refresh"])));
    assert!(is_dir(&parts(&["p", "a", "s"])));
    assert!(!is_dir(&parts(&["p", "a", "s", "T-1.md"])));
}

#[test]
fn directories_list_their_entries_in_order() {
    let tree = tree();
    assert_eq!(names(&list_directory(&tree, &parts(&[]))), vec!["empty", "genbook"]);
    assert_eq!(
        list_directory(&tree, &parts(&["genbook"])),
        vec![
            DirRow { name: ".refresh".to_string(), kind: FileKind::RegularFile },
            DirRow { name: "alice".to_string(), kind: FileKind::Directory },
            DirRow { name: "dang".to_string(), kind: FileKind::Directory },
            DirRow { name: "unassigned".to_string(), kind: FileKind::Directory },
        ]
    );
    assert_eq!(names(&list_directory(&tree, &parts(&["empty"]))), vec![".refresh"]);
    assert!(list_directory(&tree, &parts(&["other"])).is_empty());
    assert_eq!(names(&list_directory(&tree, &parts(&["genbook", "alice"]))), vec!["in-progress"]);
    assert!(list_directory(&tree, &parts(&["genbook", ".refresh"])).is_empty());
    assert_eq!(
        list_directory(&tree, &parts(&["genbook", "alice", "in-progress"])),
        vec![
            DirRow { name: "GB-319.md".to_string(), kind: FileKind::RegularFile },
            DirRow { name: "GB-412.md".to_string(), kind: FileKind::RegularFile },
        ]
    );
}

#[test]
fn two_tickets_of_one_name_are_both_listed() {
    let mut slug_map: Dict<String> = Dict::new();
    let mut tree: Tree = Dict::new();
    let twice = vec![ticket("X-1", "a", "b"), ticket("X-1", "a", "b")];
    tree.insert("p".to_string(), build_project_tree(&twice, &mut slug_map));
    assert_eq!(
        names(&list_directory(&tree, &parts(&["p", "a", "b"]))),
        vec!["X-1.md", "X-1.md"]
    );
}

#[test]
fn description_goes_to_its_ticket_alone() {
    let mut tree = tree();
    describe_ticket(
        &mut tree,
        "genbook",
        "alice",
        "in-progress",
        "GB-319.md",
        "page-GB-319",
        "text".to_string(),
    );
    let described = find_ticket(&tree, "genbook", "alice", "in-progress", "GB-319.md").unwrap();
    assert_eq!(described.description, "text");
    let other = find_ticket(&tree, "genbook", "alice", "in-progress", "GB-412.md").unwrap();
    assert_eq!(other.description, "");
    assert_eq!(count_tree(&tree), 4);
    describe_ticket(
        &mut tree,
        "genbook",
        "alice",
        "in-progress",
        "GB-412.md",
        "another-page",
        "text".to_string(),
    );
    let other = find_ticket(&tree, "genbook", "alice", "in-progress", "GB-412.md").unwrap();
    assert_eq!(other.description, "");
}
