//! What stands at a path: directories by depth, `.refresh` files and ticket files.

use vstd::prelude::*;

use crate::dict::Dict;
use crate::notion::{Ticket, TicketView};
use crate::sums::{lemma_map_sum_insert, lemma_map_sum_remove};
use crate::text::{same_text, texts_of};
use crate::tree::{
    assignee_slug, belongs, dirs_placed, dirs_sum, list_len, project_sum, project_tree,
    status_slug, tickets_at, tree_count, well_placed, Tree, TreeView,
};

verus! {

/// The name of the file that triggers a refresh of its project.
pub const REFRESH_FILE: &'static str = ".refresh";

/// The name of a ticket's file.
pub open spec fn file_name(t: TicketView) -> Seq<char> {
    t.ticket_id + ".md"@
}

/// The index of the first ticket with the given file name, and -1 if there is none.
pub open spec fn file_index(list: Seq<TicketView>, file: Seq<char>) -> int
    decreases list.len(),
{
    if list.len() == 0 {
        -1
    } else if file_name(list[0]) == file {
        0
    } else {
        let later = file_index(list.drop_first(), file);
        if later < 0 {
            -1
        } else {
            later + 1
        }
    }
}

/// The tickets of a status directory, where there is such a directory.
pub open spec fn directory(
    tree: TreeView,
    project: Seq<char>,
    assignee: Seq<char>,
    status: Seq<char>,
) -> Option<Seq<TicketView>> {
    if tree.contains_key(project) && tree[project].contains_key(assignee)
        && tree[project][assignee].contains_key(status) {
        Some(tree[project][assignee][status])
    } else {
        None
    }
}

/// The ticket whose file stands at a path: the first of its directory with that file name.
pub open spec fn ticket_file(
    tree: TreeView,
    project: Seq<char>,
    assignee: Seq<char>,
    status: Seq<char>,
    file: Seq<char>,
) -> Option<TicketView> {
    match directory(tree, project, assignee, status) {
        Some(list) => {
            let i = file_index(list, file);
            if 0 <= i < list.len() {
                Some(list[i])
            } else {
                None
            }
        },
        None => None,
    }
}

/// Whether there is a file or a directory at a path.
pub open spec fn exists_at(tree: TreeView, parts: Seq<Seq<char>>) -> bool {
    if parts.len() == 0 {
        true
    } else if parts.len() == 1 {
        tree.contains_key(parts[0])
    } else if parts.len() == 2 {
        tree.contains_key(parts[0]) && (parts[1] == REFRESH_FILE@
            || tree[parts[0]].contains_key(parts[1]))
    } else if parts.len() == 3 {
        directory(tree, parts[0], parts[1], parts[2]) is Some
    } else if parts.len() == 4 {
        ticket_file(tree, parts[0], parts[1], parts[2], parts[3]) is Some
    } else {
        false
    }
}

/// Whether what stands at a path is a directory: everything above the tickets is, but for the
/// `.refresh` files.
pub open spec fn directory_at(parts: Seq<Seq<char>>) -> bool {
    parts.len() <= 3 && !(parts.len() == 2 && parts[1] == REFRESH_FILE@)
}

/// Where the first ticket with a file name stands.
pub proof fn lemma_file_index(list: Seq<TicketView>, file: Seq<char>)
    ensures
        -1 <= file_index(list, file) < list.len(),
        file_index(list, file) >= 0 ==> file_name(list[file_index(list, file)]) == file,
        file_index(list, file) < 0 ==> forall|i: int|
            0 <= i < list.len() ==> file_name(#[trigger] list[i]) != file,
        forall|i: int|
            0 <= i < file_index(list, file) ==> file_name(#[trigger] list[i]) != file,
    decreases list.len(),
{
    if list.len() > 0 {
        let rest = list.drop_first();
        lemma_file_index(rest, file);
        assert forall|i: int|
            0 <= i < list.len() && (file_index(list, file) < 0 || i < file_index(
                list,
                file,
            )) implies file_name(#[trigger] list[i]) != file by {
            if i > 0 {
                assert(rest[i - 1] == list[i]);
            }
        }
    }
}

/// The name of a ticket's file.
pub fn ticket_file_name(ticket: &Ticket) -> (name: String)
    ensures
        name@ == file_name(ticket@),
{
    let mut name = ticket.ticket_id.clone();
    name.push_str(".md");
    name
}

/// Finds the first ticket with the given file name.
fn find_file(list: &Vec<Ticket>, file: &str) -> (at: Option<usize>)
    ensures
        match at {
            Some(i) => i == file_index(list.deep_view(), file@) && i < list@.len(),
            None => file_index(list.deep_view(), file@) < 0,
        },
{
    let ghost all = list.deep_view();
    let mut i: usize = 0;
    assert(all.skip(0) == all);
    while i < list.len()
        invariant
            i <= list@.len(),
            all == list.deep_view(),
            file_index(all, file@) == if file_index(all.skip(i as int), file@) < 0 {
                -1
            } else {
                file_index(all.skip(i as int), file@) + i
            },
        decreases list@.len() - i,
    {
        assert(all.skip(i as int)[0] == all[i as int]);
        assert(all.skip(i as int).drop_first() == all.skip(i + 1));
        if same_text(ticket_file_name(&list[i]).as_str(), file) {
            return Some(i);
        }
        i = i + 1;
    }
    None
}

/// Finds a status directory.
pub fn find_directory<'a>(
    tree: &'a Tree,
    project: &str,
    assignee: &str,
    status: &str,
) -> (list: Option<&'a Vec<Ticket>>)
    ensures
        match list {
            Some(l) => directory(tree@, project@, assignee@, status@) == Some(l.deep_view()),
            None => directory(tree@, project@, assignee@, status@) is None,
        },
{
    match tree.get(project) {
        Some(assignees) => match assignees.get(assignee) {
            Some(statuses) => statuses.get(status),
            None => None,
        },
        None => None,
    }
}

/// Finds the ticket whose file stands at a path.
pub fn find_ticket<'a>(
    tree: &'a Tree,
    project: &str,
    assignee: &str,
    status: &str,
    file: &str,
) -> (ticket: Option<&'a Ticket>)
    ensures
        match ticket {
            Some(t) => ticket_file(tree@, project@, assignee@, status@, file@) == Some(t@),
            None => ticket_file(tree@, project@, assignee@, status@, file@) is None,
        },
{
    match find_directory(tree, project, assignee, status) {
        Some(list) => match find_file(list, file) {
            Some(i) => Some(&list[i]),
            None => None,
        },
        None => None,
    }
}

/// Whether there is a file or a directory at a path.
pub fn path_exists_in(tree: &Tree, parts: &Vec<String>) -> (found: bool)
    ensures
        found == exists_at(tree@, texts_of(parts@)),
{
    if parts.len() == 0 {
        true
    } else if parts.len() == 1 {
        tree.contains_key(parts[0].as_str())
    } else if parts.len() == 2 {
        match tree.get(parts[0].as_str()) {
            Some(assignees) => same_text(parts[1].as_str(), REFRESH_FILE)
                || assignees.contains_key(parts[1].as_str()),
            None => false,
        }
    } else if parts.len() == 3 {
        find_directory(
            tree,
            parts[0].as_str(),
            parts[1].as_str(),
            parts[2].as_str(),
        ).is_some()
    } else if parts.len() == 4 {
        find_ticket(
            tree,
            parts[0].as_str(),
            parts[1].as_str(),
            parts[2].as_str(),
            parts[3].as_str(),
        ).is_some()
    } else {
        false
    }
}

/// Whether what stands at a path is a directory.
pub fn is_dir(parts: &Vec<String>) -> (dir: bool)
    ensures
        dir == directory_at(texts_of(parts@)),
{
    if parts.len() == 2 {
        !same_text(parts[1].as_str(), REFRESH_FILE)
    } else {
        parts.len() <= 3
    }
}

// ---------------------------------------------------------------------------
// Descriptions
// ---------------------------------------------------------------------------

/// A tree in which the ticket at a path has the given description, where the ticket is still the
/// one of the given page.
pub open spec fn with_description(
    tree: TreeView,
    project: Seq<char>,
    assignee: Seq<char>,
    status: Seq<char>,
    file: Seq<char>,
    page_id: Seq<char>,
    description: Seq<char>,
) -> TreeView {
    match ticket_file(tree, project, assignee, status, file) {
        Some(t) => if t.page_id == page_id {
            let list = tree[project][assignee][status];
            let described = TicketView { description, ..t };
            let dirs = tree[project][assignee].insert(
                status,
                list.update(file_index(list, file), described),
            );
            tree.insert(project, tree[project].insert(assignee, dirs))
        } else {
            tree
        },
        None => tree,
    }
}

/// Gives the ticket at a path a description, where the ticket is still the one of the given page.
pub fn describe_ticket(
    tree: &mut Tree,
    project: &str,
    assignee: &str,
    status: &str,
    file: &str,
    page_id: &str,
    description: String,
)
    ensures
        final(tree)@ == with_description(
            old(tree)@,
            project@,
            assignee@,
            status@,
            file@,
            page_id@,
            description@,
        ),
{
    let same_page = match find_ticket(tree, project, assignee, status, file) {
        Some(t) => same_text(t.page_id.as_str(), page_id),
        None => false,
    };
    if !same_page {
        return ;
    }
    let ghost before = tree@;
    let ghost list_before = before[project@][assignee@][status@];
    if let Some(mut assignees) = tree.exchange(project, Dict::new()) {
        if let Some(mut dirs) = assignees.exchange(assignee, Dict::new()) {
            if let Some(mut list) = dirs.exchange(status, Vec::new()) {
                if let Some(i) = find_file(&list, file) {
                    let mut described = list[i].clone();
                    described.description = description;
                    list[i] = described;
                    assert(list.deep_view() == list_before.update(i as int, described@));
                }
                let ghost list_after = list.deep_view();
                dirs.insert(status.to_string(), list);
                assert(dirs@ == before[project@][assignee@].insert(status@, list_after));
            }
            let ghost dirs_after = dirs@;
            assignees.insert(assignee.to_string(), dirs);
            assert(assignees@ == before[project@].insert(assignee@, dirs_after));
        }
        let ghost assignees_after = assignees@;
        tree.insert(project.to_string(), assignees);
        assert(tree@ == before.insert(project@, assignees_after));
    }
}

/// Whether every ticket of every project is under its own assignee and status.
pub open spec fn tree_placed(tree: TreeView) -> bool {
    forall|p: Seq<char>| #[trigger] tree.contains_key(p) ==> well_placed(tree[p])
}

/// Whether a tree has finitely many directories.
pub open spec fn finite_tree(tree: TreeView) -> bool {
    &&& tree.dom().finite()
    &&& forall|p: Seq<char>| #[trigger] tree.contains_key(p) ==> tree[p].dom().finite()
    &&& forall|p: Seq<char>, a: Seq<char>|
        tree.contains_key(p) && #[trigger] tree[p].contains_key(a) ==> tree[p][a].dom().finite()
}

/// A list in which one ticket changed its description finds every file where it was.
proof fn lemma_description_keeps_files(list: Seq<TicketView>, i: int, t: TicketView, file: Seq<char>)
    requires
        0 <= i < list.len(),
        t.ticket_id == list[i].ticket_id,
    ensures
        file_index(list.update(i, t), file) == file_index(list, file),
    decreases list.len(),
{
    let after = list.update(i, t);
    if i > 0 {
        assert(after.drop_first() == list.drop_first().update(i - 1, t));
        lemma_description_keeps_files(list.drop_first(), i - 1, t, file);
    } else {
        assert(after.drop_first() == list.drop_first());
    }
}

/// Giving a ticket its description changes that description and nothing else: every path leads
/// where it led, every ticket stays under its own assignee and status, and as many tickets are
/// there as were.
pub proof fn law_description_changes_nothing_else(
    tree: TreeView,
    project: Seq<char>,
    assignee: Seq<char>,
    status: Seq<char>,
    file: Seq<char>,
    page_id: Seq<char>,
    description: Seq<char>,
)
    requires
        finite_tree(tree),
    ensures
        ({
            let after = with_description(
                tree,
                project,
                assignee,
                status,
                file,
                page_id,
                description,
            );
            &&& forall|parts: Seq<Seq<char>>| #[trigger]
                exists_at(after, parts) == exists_at(tree, parts)
            &&& tree_placed(tree) ==> tree_placed(after)
            &&& finite_tree(after)
            &&& tree_count(after) == tree_count(tree)
            &&& match ticket_file(tree, project, assignee, status, file) {
                Some(t) => ticket_file(after, project, assignee, status, file) == Some(
                    if t.page_id == page_id {
                        TicketView { description, ..t }
                    } else {
                        t
                    },
                ),
                None => ticket_file(after, project, assignee, status, file) is None,
            }
        }),
{
    let after = with_description(tree, project, assignee, status, file, page_id, description);
    let found = ticket_file(tree, project, assignee, status, file);
    if found is Some && found->0.page_id == page_id {
        let t = found->0;
        let list = tree[project][assignee][status];
        let i = file_index(list, file);
        let described = TicketView { description, ..t };
        let new_list = list.update(i, described);
        let new_dirs = tree[project][assignee].insert(status, new_list);
        let new_project = tree[project].insert(assignee, new_dirs);
        assert forall|p: Seq<char>, a: Seq<char>, s: Seq<char>|
            (directory(after, p, a, s) is Some) == (directory(tree, p, a, s) is Some) by {}
        assert forall|p: Seq<char>, a: Seq<char>, s: Seq<char>, f: Seq<char>|
            (#[trigger] ticket_file(after, p, a, s, f) is Some) == (ticket_file(
                tree,
                p,
                a,
                s,
                f,
            ) is Some) by {
            lemma_description_keeps_files(list, i, described, f);
        }
        lemma_description_keeps_files(list, i, described, file);
        assert forall|parts: Seq<Seq<char>>| #[trigger]
            exists_at(after, parts) == exists_at(tree, parts) by {
            if parts.len() == 4 {
                let a = ticket_file(after, parts[0], parts[1], parts[2], parts[3]);
            }
        }
        if tree_placed(tree) {
            assert(well_placed(tree[project]));
            assert(dirs_placed(tree[project][assignee], assignee));
            assert(belongs(list[i], assignee, status));
            assert forall|k: int| 0 <= k < new_list.len() implies belongs(
                #[trigger] new_list[k],
                assignee,
                status,
            ) by {
                assert(belongs(list[k], assignee, status));
            }
            assert(dirs_placed(new_dirs, assignee)) by {
                assert forall|s: Seq<char>| #[trigger]
                    new_dirs.contains_key(s) implies new_dirs[s].len() > 0 && forall|k: int|
                    0 <= k < new_dirs[s].len() ==> belongs(
                        #[trigger] new_dirs[s][k],
                        assignee,
                        s,
                    ) by {
                    if s != status {
                        assert(tree[project][assignee].contains_key(s));
                    }
                }
            }
            assert(well_placed(new_project)) by {
                assert forall|a: Seq<char>| #[trigger]
                    new_project.contains_key(a) implies dirs_placed(new_project[a], a) && exists|
                    s: Seq<char>,
                | #[trigger] new_project[a].contains_key(s) by {
                    if a == assignee {
                        assert(new_project[a].contains_key(status));
                    } else {
                        assert(tree[project].contains_key(a));
                    }
                }
            }
        }
        lemma_map_sum_insert(
            tree,
            project_sum(list_len()),
            project,
            new_project,
        );
        lemma_map_sum_remove(tree, project_sum(list_len()), project);
        lemma_map_sum_insert(
            tree[project],
            dirs_sum(list_len()),
            assignee,
            new_dirs,
        );
        lemma_map_sum_remove(tree[project], dirs_sum(list_len()), assignee);
        lemma_map_sum_insert(tree[project][assignee], list_len(), status, new_list);
        lemma_map_sum_remove(tree[project][assignee], list_len(), status);
        assert(project_sum(list_len())(new_project) == project_sum(list_len())(tree[project]));
        assert forall|p: Seq<char>, a: Seq<char>|
            after.contains_key(p) && #[trigger] after[p].contains_key(
                a,
            ) implies after[p][a].dom().finite() by {
            if p == project && a == assignee {
                assert(after[p][a] == new_dirs);
            } else {
                assert(tree[p].contains_key(a));
            }
        }
    }
}

/// Every ticket of a project has its file at `project/assignee/status/ticket-id.md`, in whatever
/// tree the project's tickets are put.
pub proof fn law_every_ticket_has_its_file(
    tree: TreeView,
    project: Seq<char>,
    tickets: Seq<TicketView>,
    i: int,
)
    requires
        0 <= i < tickets.len(),
    ensures
        exists_at(
            tree.insert(project, project_tree(tickets)),
            seq![
                project,
                assignee_slug(tickets[i]),
                status_slug(tickets[i]),
                file_name(tickets[i]),
            ],
        ),
{
    let t = tickets[i];
    let a = assignee_slug(t);
    let s = status_slug(t);
    let after = tree.insert(project, project_tree(tickets));
    assert(belongs(t, a, s));
    assert(project_tree(tickets).contains_key(a));
    assert(project_tree(tickets)[a].contains_key(s));
    let pred = |u: TicketView| belongs(u, a, s);
    let list = tickets_at(tickets, a, s);
    assert(list.contains(t)) by {
        broadcast use vstd::seq_lib::group_filter_ensures;

        assert(pred(t));
        assert(tickets.contains(t));
    }
    let k = choose|k: int| 0 <= k < list.len() && list[k] == t;
    assert(file_name(list[k]) == file_name(t));
    lemma_file_index(list, file_name(t));
    assert(directory(after, project, a, s) == Some(list));
    assert(ticket_file(after, project, a, s, file_name(t)) is Some);
}

/// The ticket whose file stands at a path is one of that assignee, status and file name.
pub proof fn law_files_are_where_they_belong(
    tree: TreeView,
    project: Seq<char>,
    assignee: Seq<char>,
    status: Seq<char>,
    file: Seq<char>,
)
    requires
        tree_placed(tree),
        ticket_file(tree, project, assignee, status, file) is Some,
    ensures
        ({
            let t = ticket_file(tree, project, assignee, status, file)->0;
            &&& assignee_slug(t) == assignee
            &&& status_slug(t) == status
            &&& file_name(t) == file
        }),
{
    let list = tree[project][assignee][status];
    let i = file_index(list, file);
    lemma_file_index(list, file);
    assert(well_placed(tree[project]));
    assert(dirs_placed(tree[project][assignee], assignee));
    assert(belongs(list[i], assignee, status));
}

/// Every project has a `.refresh` file, whatever tickets it has.
pub proof fn law_every_project_has_a_refresh_file(tree: TreeView, project: Seq<char>)
    requires
        tree.contains_key(project),
    ensures
        exists_at(tree, seq![project, REFRESH_FILE@]),
        !directory_at(seq![project, REFRESH_FILE@]),
{
}

// ---------------------------------------------------------------------------
// Laws of paths
// ---------------------------------------------------------------------------

/// The name of a ticket's file is its whole identifier and `.md`, so tickets have one file name
/// only where they have one identifier.
pub proof fn law_file_name_holds_the_identifier(t: TicketView, other: TicketView)
    ensures
        file_name(t).len() == t.ticket_id.len() + 3,
        file_name(t).take(t.ticket_id.len() as int) == t.ticket_id,
        file_name(t).skip(t.ticket_id.len() as int) == seq!['.', 'm', 'd'],
        file_name(t) == file_name(other) <==> t.ticket_id == other.ticket_id,
{
    reveal_strlit(".md");
    assert(".md"@ == seq!['.', 'm', 'd']);
    assert(file_name(t).take(t.ticket_id.len() as int) == t.ticket_id);
    assert(file_name(t).skip(t.ticket_id.len() as int) == ".md"@);
    assert(file_name(other).take(other.ticket_id.len() as int) == other.ticket_id);
}

/// The file at a path is that of the first ticket of the directory with the identifier that the
/// file name holds, and there is none where the directory has no such ticket.
pub proof fn law_file_is_that_of_the_first_ticket(
    tree: TreeView,
    project: Seq<char>,
    assignee: Seq<char>,
    status: Seq<char>,
    id: Seq<char>,
    i: int,
)
    requires
        tree.contains_key(project),
        tree[project].contains_key(assignee),
        tree[project][assignee].contains_key(status),
        0 <= i <= tree[project][assignee][status].len(),
        forall|j: int|
            0 <= j < i ==> (#[trigger] tree[project][assignee][status][j]).ticket_id != id,
        i < tree[project][assignee][status].len() ==> tree[project][assignee][status][i].ticket_id
            == id,
    ensures
        ({
            let list = tree[project][assignee][status];
            let found = ticket_file(
                tree,
                project,
                assignee,
                status,
                id + seq!['.', 'm', 'd'],
            );
            if i < list.len() {
                found == Some(list[i])
            } else {
                found is None
            }
        }),
{
    let list = tree[project][assignee][status];
    let file = id + seq!['.', 'm', 'd'];
    reveal_strlit(".md");
    assert(".md"@ == seq!['.', 'm', 'd']);
    lemma_file_index(list, file);
    assert forall|j: int| 0 <= j < list.len() implies (file_name(#[trigger] list[j]) == file
        <==> list[j].ticket_id == id) by {
        assert(file.take(id.len() as int) == id);
        law_file_name_holds_the_identifier(list[j], list[j]);
        if file_name(list[j]) == file {
            assert(list[j].ticket_id.len() == id.len());
        }
    }
    let k = file_index(list, file);
    if 0 <= k < i {
        assert(list[k].ticket_id == id);
    }
    if i < list.len() {
        assert(file_name(list[i]) == file);
    }
}

/// A path that is missing one of its directories leads to no file.
pub proof fn law_no_file_without_its_directory(
    tree: TreeView,
    project: Seq<char>,
    assignee: Seq<char>,
    status: Seq<char>,
    file: Seq<char>,
)
    ensures
        ticket_file(tree, project, assignee, status, file) is Some ==> tree.contains_key(project)
            && tree[project].contains_key(assignee) && tree[project][assignee].contains_key(
            status,
        ),
        directory(tree, project, assignee, status) is Some <==> tree.contains_key(project)
            && tree[project].contains_key(assignee) && tree[project][assignee].contains_key(
            status,
        ),
        directory(tree, project, assignee, status) is Some ==> directory(
            tree,
            project,
            assignee,
            status,
        )->0 == tree[project][assignee][status],
{
}

/// The root, and every project, assignee, status and ticket of the tree, stands at its path, and so
/// does the `.refresh` file of every project. Nothing else does.
pub proof fn law_what_exists(tree: TreeView, parts: Seq<Seq<char>>)
    ensures
        exists_at(tree, Seq::empty()),
        parts.len() == 1 ==> (exists_at(tree, parts) <==> tree.contains_key(parts[0])),
        parts.len() == 2 && tree.contains_key(parts[0]) ==> (exists_at(tree, parts) <==> parts[1]
            == seq!['.', 'r', 'e', 'f', 'r', 'e', 's', 'h'] || tree[parts[0]].contains_key(
            parts[1],
        )),
        parts.len() == 3 && tree.contains_key(parts[0]) && tree[parts[0]].contains_key(parts[1])
            ==> (exists_at(tree, parts) <==> tree[parts[0]][parts[1]].contains_key(parts[2])),
        parts.len() == 4 ==> (exists_at(tree, parts) <==> ticket_file(
            tree,
            parts[0],
            parts[1],
            parts[2],
            parts[3],
        ) is Some),
        parts.len() > 4 ==> !exists_at(tree, parts),
        parts.len() > 0 && !tree.contains_key(parts[0]) ==> !exists_at(tree, parts),
        parts.len() > 2 && tree.contains_key(parts[0]) && !tree[parts[0]].contains_key(parts[1])
            ==> !exists_at(tree, parts),
{
    reveal_strlit(".refresh");
    assert(".refresh"@ == seq!['.', 'r', 'e', 'f', 'r', 'e', 's', 'h']);
    assert(REFRESH_FILE@ == ".refresh"@);
}

/// Whatever stands at a path stands in a directory that is there.
pub proof fn law_parents_exist(tree: TreeView, parts: Seq<Seq<char>>)
    requires
        parts.len() > 0,
        exists_at(tree, parts),
    ensures
        exists_at(tree, parts.drop_last()),
        directory_at(parts.drop_last()) || (parts.len() == 3 && parts[1] == REFRESH_FILE@),
{
    let up = parts.drop_last();
    if parts.len() > 1 {
        assert(up[0] == parts[0]);
    }
    if parts.len() > 2 {
        assert(up[1] == parts[1]);
    }
    if parts.len() > 3 {
        assert(up[2] == parts[2]);
        assert(directory(tree, parts[0], parts[1], parts[2]) is Some);
    }
}

/// Whether a path is that of a directory goes by its depth alone, but for the `.refresh` files.
pub proof fn law_directories_go_by_depth(parts: Seq<Seq<char>>)
    ensures
        parts.len() != 2 ==> (directory_at(parts) <==> parts.len() < 4),
        parts.len() == 2 ==> (directory_at(parts) <==> parts[1] != seq![
            '.',
            'r',
            'e',
            'f',
            'r',
            'e',
            's',
            'h',
        ]),
{
    reveal_strlit(".refresh");
    assert(".refresh"@ == seq!['.', 'r', 'e', 'f', 'r', 'e', 's', 'h']);
    assert(REFRESH_FILE@ == ".refresh"@);
}

/// A description goes to one ticket and leaves every other as it was: every directory has the
/// tickets that it had, in their places, and the one that changes changes in its description alone.
pub proof fn law_description_goes_to_one_ticket(
    tree: TreeView,
    project: Seq<char>,
    assignee: Seq<char>,
    status: Seq<char>,
    file: Seq<char>,
    page_id: Seq<char>,
    description: Seq<char>,
    p: Seq<char>,
    a: Seq<char>,
    s: Seq<char>,
    k: int,
)
    requires
        tree.contains_key(p),
        tree[p].contains_key(a),
        tree[p][a].contains_key(s),
        0 <= k < tree[p][a][s].len(),
    ensures
        ({
            let after = with_description(
                tree,
                project,
                assignee,
                status,
                file,
                page_id,
                description,
            );
            let was = tree[p][a][s][k];
            let is = after[p][a][s][k];
            let meant = p == project && a == assignee && s == status && file_name(was) == file
                && was.page_id == page_id && forall|j: int|
                0 <= j < k ==> file_name(#[trigger] tree[p][a][s][j]) != file;
            &&& after.dom() == tree.dom()
            &&& after[p].dom() == tree[p].dom()
            &&& after[p][a].dom() == tree[p][a].dom()
            &&& after[p][a][s].len() == tree[p][a][s].len()
            &&& !meant ==> is == was
            &&& meant ==> is.description == description && is == (TicketView {
                description: is.description,
                ..was
            })
        }),
{
    let after = with_description(tree, project, assignee, status, file, page_id, description);
    let list = tree[p][a][s];
    lemma_file_index(list, file);
    let i = file_index(list, file);
    if p == project && a == assignee && s == status {
        if 0 <= i < list.len() && k != i && file_name(list[k]) == file {
            assert(i < k);
            assert(file_name(list[i]) == file);
        }
    }
    assert(after.dom() =~= tree.dom());
    assert(after[p].dom() =~= tree[p].dom());
    assert(after[p][a].dom() =~= tree[p][a].dom());
}

} // verus!
