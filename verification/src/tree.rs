//! The tree of tickets: project slug, assignee slug, status slug, tickets.

use vstd::prelude::*;

use crate::dict::{distinct_keys, lemma_rows_map, rows_map, Dict};
use crate::notion::{Ticket, TicketView};
use crate::slug::{slug_of, slugify};
use crate::sums::{
    lemma_map_sum_insert, lemma_map_sum_remove, lemma_rows_sum, lemma_rows_sum_monotone, map_sum,
    rows_sum,
};

verus! {

/// Status slugs and the tickets of each.
pub type StatusDirs = Dict<Vec<Ticket>>;

/// The tree of one project: assignee slugs and the statuses of each.
pub type ProjectTree = Dict<StatusDirs>;

/// The tree of all projects.
pub type Tree = Dict<ProjectTree>;

/// What status directories hold.
pub type StatusView = Map<Seq<char>, Seq<TicketView>>;

/// What the tree of a project holds.
pub type ProjectTreeView = Map<Seq<char>, StatusView>;

/// What the tree of all projects holds.
pub type TreeView = Map<Seq<char>, ProjectTreeView>;

/// The display name of a ticket's assignee.
pub open spec fn assignee_name(t: TicketView) -> Seq<char> {
    if t.assignee.len() == 0 {
        "unassigned"@
    } else {
        t.assignee
    }
}

/// The display name of a ticket's status.
pub open spec fn status_name(t: TicketView) -> Seq<char> {
    if t.status.len() == 0 {
        "no-status"@
    } else {
        t.status
    }
}

/// The directory of a ticket's assignee.
pub open spec fn assignee_slug(t: TicketView) -> Seq<char> {
    slug_of(assignee_name(t))
}

/// The directory of a ticket's status.
pub open spec fn status_slug(t: TicketView) -> Seq<char> {
    slug_of(status_name(t))
}

/// Whether a ticket belongs to an assignee and a status.
pub open spec fn belongs(t: TicketView, assignee: Seq<char>, status: Seq<char>) -> bool {
    assignee_slug(t) == assignee && status_slug(t) == status
}

/// Those of the tickets that belong to an assignee and a status, in their order.
pub open spec fn tickets_at(
    tickets: Seq<TicketView>,
    assignee: Seq<char>,
    status: Seq<char>,
) -> Seq<TicketView> {
    tickets.filter(|t: TicketView| belongs(t, assignee, status))
}

/// Whether an assignee has any of the tickets.
pub open spec fn has_assignee(tickets: Seq<TicketView>, assignee: Seq<char>) -> bool {
    exists|i: int| 0 <= i < tickets.len() && assignee_slug(#[trigger] tickets[i]) == assignee
}

/// Whether an assignee has any of the tickets in a status.
pub open spec fn has_status(
    tickets: Seq<TicketView>,
    assignee: Seq<char>,
    status: Seq<char>,
) -> bool {
    exists|i: int| 0 <= i < tickets.len() && belongs(#[trigger] tickets[i], assignee, status)
}

/// The statuses of an assignee, with the tickets of each.
pub open spec fn status_dirs(tickets: Seq<TicketView>, assignee: Seq<char>) -> StatusView {
    Map::new(
        |status: Seq<char>| has_status(tickets, assignee, status),
        |status: Seq<char>| tickets_at(tickets, assignee, status),
    )
}

/// The tree that a project's tickets make.
pub open spec fn project_tree(tickets: Seq<TicketView>) -> ProjectTreeView {
    Map::new(
        |assignee: Seq<char>| has_assignee(tickets, assignee),
        |assignee: Seq<char>| status_dirs(tickets, assignee),
    )
}

/// The value under a key, and an empty map where there is none.
pub open spec fn statuses_under(tree: ProjectTreeView, assignee: Seq<char>) -> StatusView {
    if tree.contains_key(assignee) {
        tree[assignee]
    } else {
        Map::empty()
    }
}

/// The tickets under a key, and no tickets where there is none.
pub open spec fn tickets_under(dirs: StatusView, status: Seq<char>) -> Seq<TicketView> {
    if dirs.contains_key(status) {
        dirs[status]
    } else {
        Seq::empty()
    }
}

/// A tree with one more ticket.
pub open spec fn with_ticket(tree: ProjectTreeView, t: TicketView) -> ProjectTreeView {
    let dirs = statuses_under(tree, assignee_slug(t));
    let tickets = tickets_under(dirs, status_slug(t));
    tree.insert(assignee_slug(t), dirs.insert(status_slug(t), tickets.push(t)))
}

/// The slug map after a project's tickets: each assignee's and each status's slug stands for the
/// display name that it came from last.
pub open spec fn with_slugs(
    slugs: Map<Seq<char>, Seq<char>>,
    tickets: Seq<TicketView>,
) -> Map<Seq<char>, Seq<char>>
    decreases tickets.len(),
{
    if tickets.len() == 0 {
        slugs
    } else {
        let t = tickets.last();
        with_slugs(slugs, tickets.drop_last()).insert(assignee_slug(t), assignee_name(t)).insert(
            status_slug(t),
            status_name(t),
        )
    }
}

/// Whether a slug is that of a ticket's assignee or status, and stands for that display name.
pub open spec fn names_slug(t: TicketView, slug: Seq<char>, name: Seq<char>) -> bool {
    (assignee_slug(t) == slug && assignee_name(t) == name) || (status_slug(t) == slug
        && status_name(t) == name)
}

/// Whether a slug is that of some ticket's assignee or status.
pub open spec fn slug_occurs(tickets: Seq<TicketView>, slug: Seq<char>) -> bool {
    exists|i: int|
        0 <= i < tickets.len() && (assignee_slug(#[trigger] tickets[i]) == slug || status_slug(
            tickets[i],
        ) == slug)
}

/// Every assignee's and status's slug leads to a display name of some ticket with that slug, and
/// every other slug leads where it led.
pub proof fn law_slugs_lead_to_display_names(
    slugs: Map<Seq<char>, Seq<char>>,
    tickets: Seq<TicketView>,
    slug: Seq<char>,
)
    ensures
        slug_occurs(tickets, slug) ==> with_slugs(slugs, tickets).contains_key(slug) && exists|
            i: int,
        |
            0 <= i < tickets.len() && names_slug(
                #[trigger] tickets[i],
                slug,
                with_slugs(slugs, tickets)[slug],
            ),
        !slug_occurs(tickets, slug) ==> with_slugs(slugs, tickets).contains_key(slug)
            == slugs.contains_key(slug) && with_slugs(slugs, tickets)[slug] == slugs[slug],
    decreases tickets.len(),
{
    if tickets.len() > 0 {
        let rest = tickets.drop_last();
        let t = tickets.last();
        let last = tickets.len() - 1;
        let after = with_slugs(slugs, tickets);
        law_slugs_lead_to_display_names(slugs, rest, slug);
        assert(tickets[last] == t);
        if assignee_slug(t) == slug || status_slug(t) == slug {
            assert(slug_occurs(tickets, slug));
            assert(names_slug(tickets[last], slug, after[slug]));
        } else {
            assert(after[slug] == with_slugs(slugs, rest)[slug]);
            if slug_occurs(tickets, slug) {
                let i = choose|i: int|
                    0 <= i < tickets.len() && (assignee_slug(#[trigger] tickets[i]) == slug
                        || status_slug(tickets[i]) == slug);
                assert(rest[i] == tickets[i]);
                assert(slug_occurs(rest, slug));
                let j = choose|j: int|
                    0 <= j < rest.len() && names_slug(#[trigger] rest[j], slug, after[slug]);
                assert(names_slug(tickets[j], slug, after[slug]));
            } else {
                assert(!slug_occurs(rest, slug)) by {
                    if slug_occurs(rest, slug) {
                        let i = choose|i: int|
                            0 <= i < rest.len() && (assignee_slug(#[trigger] rest[i]) == slug
                                || status_slug(rest[i]) == slug);
                        assert(tickets[i] == rest[i]);
                    }
                }
            }
        }
    }
}

proof fn lemma_no_tickets_at(tickets: Seq<TicketView>, assignee: Seq<char>, status: Seq<char>)
    requires
        !has_status(tickets, assignee, status),
    ensures
        tickets_at(tickets, assignee, status) == Seq::<TicketView>::empty(),
{
    let pred = |t: TicketView| belongs(t, assignee, status);
    assert forall|i: int| 0 <= i < tickets.len() implies !pred(tickets[i]) by {
        assert(!belongs(tickets[i], assignee, status));
    }
    tickets.lemma_all_neg_filter_empty(pred);
}

/// One more ticket goes to its own assignee and status, behind the tickets that are there.
pub proof fn lemma_project_tree_push(tickets: Seq<TicketView>, t: TicketView)
    ensures
        project_tree(tickets.push(t)) == with_ticket(project_tree(tickets), t),
{
    let more = tickets.push(t);
    let a = assignee_slug(t);
    let s = status_slug(t);
    assert forall|x: Seq<char>| has_assignee(more, x) == (has_assignee(tickets, x) || x == a) by {
        if has_assignee(tickets, x) {
            let i = choose|i: int|
                0 <= i < tickets.len() && assignee_slug(#[trigger] tickets[i]) == x;
            assert(more[i] == tickets[i]);
        }
        if x == a {
            assert(more[tickets.len() as int] == t);
        }
        if has_assignee(more, x) && x != a {
            let i = choose|i: int| 0 <= i < more.len() && assignee_slug(#[trigger] more[i]) == x;
            assert(tickets[i] == more[i]);
        }
    }
    assert forall|x: Seq<char>, y: Seq<char>|
        has_status(more, x, y) == (has_status(tickets, x, y) || (x == a && y == s)) by {
        if has_status(tickets, x, y) {
            let i = choose|i: int| 0 <= i < tickets.len() && belongs(#[trigger] tickets[i], x, y);
            assert(more[i] == tickets[i]);
        }
        if x == a && y == s {
            assert(more[tickets.len() as int] == t);
        }
        if has_status(more, x, y) && !(x == a && y == s) {
            let i = choose|i: int| 0 <= i < more.len() && belongs(#[trigger] more[i], x, y);
            assert(tickets[i] == more[i]);
        }
    }
    assert forall|x: Seq<char>, y: Seq<char>| #[trigger]
        tickets_at(more, x, y) == if x == a && y == s {
            tickets_at(tickets, x, y).push(t)
        } else {
            tickets_at(tickets, x, y)
        } by {
        tickets.lemma_filter_push(t, |u: TicketView| belongs(u, x, y));
    }
    assert forall|x: Seq<char>| x != a implies #[trigger] status_dirs(more, x) == status_dirs(
        tickets,
        x,
    ) by {
        assert(status_dirs(more, x) =~= status_dirs(tickets, x));
    }
    let dirs = statuses_under(project_tree(tickets), a);
    assert(dirs =~= status_dirs(tickets, a)) by {
        if !has_assignee(tickets, a) {
            assert forall|y: Seq<char>| !has_status(tickets, a, y) by {
                if has_status(tickets, a, y) {
                    let i = choose|i: int|
                        0 <= i < tickets.len() && belongs(#[trigger] tickets[i], a, y);
                    assert(assignee_slug(tickets[i]) == a);
                }
            }
        }
    }
    assert(tickets_under(dirs, s) == tickets_at(tickets, a, s)) by {
        if !has_status(tickets, a, s) {
            lemma_no_tickets_at(tickets, a, s);
        }
    }
    assert(status_dirs(more, a) =~= dirs.insert(s, tickets_under(dirs, s).push(t)));
    assert(project_tree(more) =~= with_ticket(project_tree(tickets), t));
}

/// The display name of the assignee, and `unassigned` where there is none.
pub fn resolve_assignee(ticket: &Ticket) -> (name: String)
    ensures
        name@ == assignee_name(ticket@),
{
    if ticket.assignee.as_str().is_empty() {
        "unassigned".to_string()
    } else {
        ticket.assignee.clone()
    }
}

/// The display name of the status, and `no-status` where there is none.
pub fn resolve_status(ticket: &Ticket) -> (name: String)
    ensures
        name@ == status_name(ticket@),
{
    if ticket.status.as_str().is_empty() {
        "no-status".to_string()
    } else {
        ticket.status.clone()
    }
}

/// Adds a ticket to a project's tree.
fn place(tree: &mut ProjectTree, assignee: String, status: String, ticket: Ticket)
    requires
        assignee@ == assignee_slug(ticket@),
        status@ == status_slug(ticket@),
    ensures
        final(tree)@ == with_ticket(old(tree)@, ticket@),
{
    let ghost before = tree@;
    let mut dirs = match tree.exchange(assignee.as_str(), Dict::new()) {
        Some(dirs) => dirs,
        None => Dict::new(),
    };
    assert(dirs@ == statuses_under(before, assignee@));
    let ghost dirs_before = dirs@;
    let mut tickets = match dirs.exchange(status.as_str(), Vec::new()) {
        Some(tickets) => tickets,
        None => Vec::new(),
    };
    let ghost tickets_before = tickets.deep_view();
    assert(tickets_before == tickets_under(dirs_before, status@));
    tickets.push(ticket);
    assert(tickets.deep_view() == tickets_before.push(ticket@));
    let ghost after = tickets.deep_view();
    dirs.insert(status, tickets);
    assert(dirs@ == dirs_before.insert(status@, after));
    tree.insert(assignee, dirs);
    assert(tree@ == with_ticket(before, ticket@));
}

/// Builds the tree of one project, and enters the assignees and statuses into the slug map.
pub fn build_project_tree(tickets: &Vec<Ticket>, slug_map: &mut Dict<String>) -> (tree: ProjectTree)
    ensures
        tree@ == project_tree(tickets.deep_view()),
        final(slug_map)@ == with_slugs(old(slug_map)@, tickets.deep_view()),
{
    let mut tree: ProjectTree = Dict::new();
    let ghost all = tickets.deep_view();
    let mut i: usize = 0;
    assert(tree@ =~= project_tree(all.take(0)));
    while i < tickets.len()
        invariant
            i <= tickets@.len(),
            all == tickets.deep_view(),
            tree@ == project_tree(all.take(i as int)),
            slug_map@ == with_slugs(old(slug_map)@, all.take(i as int)),
        decreases tickets@.len() - i,
    {
        let ticket = &tickets[i];
        proof {
            assert(all.take(i + 1) == all.take(i as int).push(ticket@));
            assert(all.take(i + 1).drop_last() == all.take(i as int));
            lemma_project_tree_push(all.take(i as int), ticket@);
        }
        let assignee_display = resolve_assignee(ticket);
        let assignee = slugify(assignee_display.as_str());
        let status_display = resolve_status(ticket);
        let status = slugify(status_display.as_str());
        slug_map.insert(assignee.clone(), assignee_display);
        slug_map.insert(status.clone(), status_display);
        place(&mut tree, assignee, status, ticket.clone());
        i = i + 1;
    }
    assert(all.take(all.len() as int) == all);
    tree
}

// ---------------------------------------------------------------------------
// Counting and collecting the tickets of a tree
// ---------------------------------------------------------------------------

/// The number of tickets in a list.
pub open spec fn list_len() -> spec_fn(Seq<TicketView>) -> nat {
    |list: Seq<TicketView>| list.len()
}

/// How often a ticket occurs in a list.
pub open spec fn occurrences(t: TicketView) -> spec_fn(Seq<TicketView>) -> nat {
    |list: Seq<TicketView>| list.to_multiset().count(t)
}

/// The sum over the lists of some status directories.
pub open spec fn dirs_sum(size: spec_fn(Seq<TicketView>) -> nat) -> spec_fn(StatusView) -> nat {
    |dirs: StatusView| map_sum(dirs, size)
}

/// The sum over the lists of a project.
pub open spec fn project_sum(size: spec_fn(Seq<TicketView>) -> nat) -> spec_fn(
    ProjectTreeView,
) -> nat {
    |tree: ProjectTreeView| map_sum(tree, dirs_sum(size))
}

/// The number of tickets in some status directories.
pub open spec fn status_count(dirs: StatusView) -> nat {
    map_sum(dirs, list_len())
}

/// The number of tickets of a project.
pub open spec fn project_count(tree: ProjectTreeView) -> nat {
    map_sum(tree, dirs_sum(list_len()))
}

/// The number of tickets in the tree.
pub open spec fn tree_count(tree: TreeView) -> nat {
    map_sum(tree, project_sum(list_len()))
}

/// Counts the tickets in some status directories.
fn count_status_dirs(dirs: &StatusDirs) -> (n: usize)
    requires
        status_count(dirs@) <= usize::MAX,
    ensures
        n == status_count(dirs@),
{
    let rows = dirs.len();
    let ghost size = list_len();
    let ghost all = dirs.rows();
    proof {
        lemma_rows_sum(all, size);
        assert(all.take(all.len() as int) == all);
    }
    let mut n: usize = 0;
    let mut i: usize = 0;
    while i < rows
        invariant
            i <= rows == all.len(),
            all == dirs.rows(),
            size == list_len(),
            all.take(all.len() as int) == all,
            rows_sum(all, size) <= usize::MAX,
            n == rows_sum(all.take(i as int), size),
        decreases rows - i,
    {
        let list = dirs.value_at(i);
        proof {
            assert(all.take(i + 1).drop_last() == all.take(i as int));
            lemma_rows_sum_monotone(all, size, i + 1, all.len() as int);
        }
        n = n + list.len();
        i = i + 1;
    }
    n
}

/// Counts the tickets of a project.
pub fn count_project(tree: &ProjectTree) -> (n: usize)
    requires
        project_count(tree@) <= usize::MAX,
    ensures
        n == project_count(tree@),
{
    let rows = tree.len();
    let ghost size = dirs_sum(list_len());
    let ghost all = tree.rows();
    proof {
        lemma_rows_sum(all, size);
        assert(all.take(all.len() as int) == all);
    }
    let mut n: usize = 0;
    let mut i: usize = 0;
    while i < rows
        invariant
            i <= rows == all.len(),
            all == tree.rows(),
            size == dirs_sum(list_len()),
            all.take(all.len() as int) == all,
            rows_sum(all, size) <= usize::MAX,
            n == rows_sum(all.take(i as int), size),
        decreases rows - i,
    {
        let dirs = tree.value_at(i);
        proof {
            assert(all.take(i + 1).drop_last() == all.take(i as int));
            lemma_rows_sum_monotone(all, size, i + 1, all.len() as int);
            assert(size(dirs@) == status_count(dirs@));
        }
        n = n + count_status_dirs(dirs);
        i = i + 1;
    }
    n
}

/// Counts the tickets in the tree.
pub fn count_tree(tree: &Tree) -> (n: usize)
    requires
        tree_count(tree@) <= usize::MAX,
    ensures
        n == tree_count(tree@),
{
    let rows = tree.len();
    let ghost size = project_sum(list_len());
    let ghost all = tree.rows();
    proof {
        lemma_rows_sum(all, size);
        assert(all.take(all.len() as int) == all);
    }
    let mut n: usize = 0;
    let mut i: usize = 0;
    while i < rows
        invariant
            i <= rows == all.len(),
            all == tree.rows(),
            size == project_sum(list_len()),
            all.take(all.len() as int) == all,
            rows_sum(all, size) <= usize::MAX,
            n == rows_sum(all.take(i as int), size),
        decreases rows - i,
    {
        let project = tree.value_at(i);
        proof {
            assert(all.take(i + 1).drop_last() == all.take(i as int));
            lemma_rows_sum_monotone(all, size, i + 1, all.len() as int);
            assert(size(project@) == project_count(project@));
        }
        n = n + count_project(project);
        i = i + 1;
    }
    n
}

/// The tree of a project's tickets has finitely many directories.
pub proof fn lemma_project_tree_finite(tickets: Seq<TicketView>)
    ensures
        project_tree(tickets).dom().finite(),
        forall|a: Seq<char>| #[trigger]
            project_tree(tickets).contains_key(a) ==> project_tree(tickets)[a].dom().finite(),
    decreases tickets.len(),
{
    if tickets.len() == 0 {
        assert(project_tree(tickets) =~= Map::empty());
    } else {
        let rest = tickets.drop_last();
        lemma_project_tree_finite(rest);
        lemma_project_tree_push(rest, tickets.last());
        assert(tickets == rest.push(tickets.last()));
    }
}

/// The tree of a project holds as many tickets as it was built from.
pub proof fn law_no_ticket_is_lost(tickets: Seq<TicketView>)
    ensures
        project_count(project_tree(tickets)) == tickets.len(),
    decreases tickets.len(),
{
    lemma_project_tree_finite(tickets);
    if tickets.len() == 0 {
        assert(project_tree(tickets) =~= Map::empty());
    } else {
        let rest = tickets.drop_last();
        let t = tickets.last();
        law_no_ticket_is_lost(rest);
        lemma_project_tree_finite(rest);
        lemma_project_tree_push(rest, t);
        assert(tickets == rest.push(t));
        let tree = project_tree(rest);
        let a = assignee_slug(t);
        let s = status_slug(t);
        let dirs = statuses_under(tree, a);
        let list = tickets_under(dirs, s);
        let size = dirs_sum(list_len());
        lemma_map_sum_insert(tree, size, a, dirs.insert(s, list.push(t)));
        lemma_map_sum_insert(dirs, list_len(), s, list.push(t));
        if dirs.contains_key(s) {
            lemma_map_sum_remove(dirs, list_len(), s);
        } else {
            assert(dirs.remove(s) =~= dirs);
        }
        if tree.contains_key(a) {
            lemma_map_sum_remove(tree, size, a);
        } else {
            assert(tree.remove(a) =~= tree);
            assert(map_sum(dirs, list_len()) == 0);
        }
    }
}

/// Whether each of an assignee's status directories holds tickets, and only tickets that belong
/// there.
pub open spec fn dirs_placed(dirs: StatusView, assignee: Seq<char>) -> bool {
    forall|s: Seq<char>| #[trigger]
        dirs.contains_key(s) ==> dirs[s].len() > 0 && forall|i: int|
            0 <= i < dirs[s].len() ==> belongs(#[trigger] dirs[s][i], assignee, s)
}

/// Whether every ticket of a project's tree is under its own assignee and status, and no directory
/// is empty.
pub open spec fn well_placed(tree: ProjectTreeView) -> bool {
    forall|a: Seq<char>| #[trigger]
        tree.contains_key(a) ==> dirs_placed(tree[a], a) && exists|s: Seq<char>| #[trigger]
            tree[a].contains_key(s)
}

/// The tickets under an assignee and a status of a project's tree.
pub open spec fn tickets_in(
    tree: ProjectTreeView,
    assignee: Seq<char>,
    status: Seq<char>,
) -> Seq<TicketView> {
    tickets_under(statuses_under(tree, assignee), status)
}

/// The tree of a project holds every ticket under its own assignee and status.
pub proof fn law_tickets_are_placed(tickets: Seq<TicketView>)
    ensures
        well_placed(project_tree(tickets)),
{
    let tree = project_tree(tickets);
    assert forall|a: Seq<char>| #[trigger] tree.contains_key(a) implies dirs_placed(tree[a], a)
        && exists|s: Seq<char>| #[trigger] tree[a].contains_key(s) by {
        assert forall|s: Seq<char>| #[trigger] tree[a].contains_key(s) implies tree[a][s].len() > 0
            && forall|i: int|
            0 <= i < tree[a][s].len() ==> belongs(#[trigger] tree[a][s][i], a, s) by {
            lemma_tickets_at(tickets, a, s);
        }
        let i = choose|i: int| 0 <= i < tickets.len() && assignee_slug(#[trigger] tickets[i]) == a;
        assert(belongs(tickets[i], a, status_slug(tickets[i])));
        assert(tree[a].contains_key(status_slug(tickets[i])));
    }
}

/// The tickets at a place belong there, and there are some exactly where the place is in the tree.
proof fn lemma_tickets_at(tickets: Seq<TicketView>, assignee: Seq<char>, status: Seq<char>)
    ensures
        has_status(tickets, assignee, status) <==> tickets_at(tickets, assignee, status).len() > 0,
        forall|i: int|
            0 <= i < tickets_at(tickets, assignee, status).len() ==> belongs(
                #[trigger] tickets_at(tickets, assignee, status)[i],
                assignee,
                status,
            ),
{
    broadcast use vstd::seq_lib::group_filter_ensures;

    let pred = |t: TicketView| belongs(t, assignee, status);
    let found = tickets.filter(pred);
    assert forall|i: int| 0 <= i < found.len() implies belongs(
        #[trigger] found[i],
        assignee,
        status,
    ) by {
        assert(pred(found[i]));
    }
    if has_status(tickets, assignee, status) {
        let i = choose|i: int|
            0 <= i < tickets.len() && belongs(#[trigger] tickets[i], assignee, status);
        assert(pred(tickets[i]));
        assert(found.contains(tickets[i]));
    } else {
        lemma_no_tickets_at(tickets, assignee, status);
    }
}

/// A well placed tree is the tree of any tickets that are, place by place, those of the tree.
proof fn lemma_tree_is_determined(tree: ProjectTreeView, tickets: Seq<TicketView>)
    requires
        well_placed(tree),
        forall|a: Seq<char>, s: Seq<char>| #[trigger]
            tickets_at(tickets, a, s) == tickets_in(tree, a, s),
    ensures
        project_tree(tickets) == tree,
{
    assert forall|a: Seq<char>, s: Seq<char>| #[trigger]
        has_status(tickets, a, s) == (tree.contains_key(a) && tree[a].contains_key(s)) by {
        lemma_tickets_at(tickets, a, s);
        assert(tickets_at(tickets, a, s) == tickets_in(tree, a, s));
    }
    assert forall|a: Seq<char>| #[trigger] has_assignee(tickets, a) == tree.contains_key(a) by {
        if has_assignee(tickets, a) {
            let i = choose|i: int|
                0 <= i < tickets.len() && assignee_slug(#[trigger] tickets[i]) == a;
            assert(belongs(tickets[i], a, status_slug(tickets[i])));
            assert(has_status(tickets, a, status_slug(tickets[i])));
        }
        if tree.contains_key(a) {
            let s = choose|s: Seq<char>| #[trigger] tree[a].contains_key(s);
            assert(has_status(tickets, a, s));
            let i = choose|i: int| 0 <= i < tickets.len() && belongs(#[trigger] tickets[i], a, s);
            assert(assignee_slug(tickets[i]) == a);
        }
    }
    assert forall|a: Seq<char>| #[trigger] tree.contains_key(a) implies status_dirs(tickets, a)
        == tree[a] by {
        assert forall|s: Seq<char>| #[trigger] tree[a].contains_key(s) implies tickets_at(
            tickets,
            a,
            s,
        ) == tree[a][s] by {
            assert(tickets_at(tickets, a, s) == tickets_in(tree, a, s));
        }
        assert(status_dirs(tickets, a) =~= tree[a]);
    }
    assert(project_tree(tickets) =~= tree);
}

/// Lists one after the other.
pub open spec fn rows_concat(rows: Seq<(Seq<char>, Seq<TicketView>)>) -> Seq<TicketView>
    decreases rows.len(),
{
    if rows.len() == 0 {
        Seq::empty()
    } else {
        rows_concat(rows.drop_last()) + rows.last().1
    }
}

proof fn lemma_rows_concat_occurrences(rows: Seq<(Seq<char>, Seq<TicketView>)>, t: TicketView)
    ensures
        rows_concat(rows).to_multiset().count(t) == rows_sum(rows, occurrences(t)),
    decreases rows.len(),
{
    broadcast use vstd::multiset::group_multiset_axioms;

    if rows.len() == 0 {
        rows_concat(rows).to_multiset_ensures();
    } else {
        lemma_rows_concat_occurrences(rows.drop_last(), t);
        vstd::seq_lib::lemma_multiset_commutative(rows_concat(rows.drop_last()), rows.last().1);
    }
}

proof fn lemma_all_belong(list: Seq<TicketView>, assignee: Seq<char>, status: Seq<char>)
    requires
        forall|i: int| 0 <= i < list.len() ==> belongs(#[trigger] list[i], assignee, status),
    ensures
        tickets_at(list, assignee, status) == list,
        forall|a: Seq<char>, s: Seq<char>|
            (a != assignee || s != status) ==> #[trigger] tickets_at(list, a, s) == Seq::<
                TicketView,
            >::empty(),
    decreases list.len(),
{
    if list.len() == 0 {
        reveal(Seq::filter);
        assert forall|a: Seq<char>, s: Seq<char>| #[trigger] tickets_at(list, a, s) == Seq::<
            TicketView,
        >::empty() by {
            assert(tickets_at(list, a, s).len() == 0);
        }
        assert(tickets_at(list, assignee, status) =~= list);
    } else {
        let rest = list.drop_last();
        assert forall|i: int| 0 <= i < rest.len() implies belongs(
            #[trigger] rest[i],
            assignee,
            status,
        ) by {
            assert(rest[i] == list[i]);
        }
        lemma_all_belong(rest, assignee, status);
        let t = list.last();
        assert(belongs(list[list.len() - 1], assignee, status));
        assert(list == rest.push(t));
        rest.lemma_filter_push(t, |u: TicketView| belongs(u, assignee, status));
        assert forall|a: Seq<char>, s: Seq<char>|
            (a != assignee || s != status) implies #[trigger] tickets_at(list, a, s) == Seq::<
            TicketView,
        >::empty() by {
            rest.lemma_filter_push(t, |u: TicketView| belongs(u, a, s));
            assert(tickets_at(rest, a, s) == Seq::<TicketView>::empty());
        }
    }
}

proof fn lemma_tickets_at_concat(
    x: Seq<TicketView>,
    y: Seq<TicketView>,
    assignee: Seq<char>,
    status: Seq<char>,
)
    ensures
        tickets_at(x + y, assignee, status) == tickets_at(x, assignee, status) + tickets_at(
            y,
            assignee,
            status,
        ),
{
    Seq::filter_distributes_over_add(x, y, |t: TicketView| belongs(t, assignee, status));
}

/// The lists of an assignee's statuses, one after the other, keep the place of every ticket.
proof fn lemma_rows_concat_places(
    rows: Seq<(Seq<char>, Seq<TicketView>)>,
    assignee: Seq<char>,
)
    requires
        distinct_keys(rows),
        dirs_placed(rows_map(rows), assignee),
    ensures
        forall|s: Seq<char>| #[trigger]
            tickets_at(rows_concat(rows), assignee, s) == tickets_under(rows_map(rows), s),
        forall|a: Seq<char>, s: Seq<char>|
            a != assignee ==> #[trigger] tickets_at(rows_concat(rows), a, s) == Seq::<
                TicketView,
            >::empty(),
    decreases rows.len(),
{
    if rows.len() == 0 {
        lemma_all_belong(rows_concat(rows), assignee, Seq::empty());
        assert forall|s: Seq<char>| #[trigger]
            tickets_at(rows_concat(rows), assignee, s) == tickets_under(rows_map(rows), s) by {}
    } else {
        let rest = rows.drop_last();
        let status = rows.last().0;
        let list = rows.last().1;
        lemma_rows_map(rows);
        lemma_rows_map(rest);
        let last = rows[rows.len() - 1];
        assert(rows_map(rows).contains_key(status) && rows_map(rows)[status] == list);
        assert(!rows_map(rest).contains_key(status)) by {
            if rows_map(rest).contains_key(status) {
                let i = choose|i: int| 0 <= i < rest.len() && (#[trigger] rest[i]).0 == status;
                assert(rows[i].0 == last.0);
            }
        }
        assert(dirs_placed(rows_map(rest), assignee)) by {
            assert forall|s: Seq<char>| #[trigger] rows_map(rest).contains_key(s) implies rows_map(
                rest,
            )[s].len() > 0 && forall|i: int|
                0 <= i < rows_map(rest)[s].len() ==> belongs(
                    #[trigger] rows_map(rest)[s][i],
                    assignee,
                    s,
                ) by {
                assert(rows_map(rows).contains_key(s) && rows_map(rows)[s] == rows_map(rest)[s]);
            }
        }
        lemma_rows_concat_places(rest, assignee);
        lemma_all_belong(list, assignee, status);
        assert forall|s: Seq<char>| #[trigger]
            tickets_at(rows_concat(rows), assignee, s) == tickets_under(rows_map(rows), s) by {
            lemma_tickets_at_concat(rows_concat(rest), list, assignee, s);
            assert(tickets_at(rows_concat(rest), assignee, s) == tickets_under(rows_map(rest), s));
            if s == status {
                assert(Seq::<TicketView>::empty() + list == list);
            } else {
                assert(tickets_at(list, assignee, s) == Seq::<TicketView>::empty());
                assert(tickets_under(rows_map(rest), s) + Seq::<TicketView>::empty()
                    == tickets_under(rows_map(rest), s));
            }
        }
        assert forall|a: Seq<char>, s: Seq<char>| a != assignee implies #[trigger] tickets_at(
            rows_concat(rows),
            a,
            s,
        ) == Seq::<TicketView>::empty() by {
            lemma_tickets_at_concat(rows_concat(rest), list, a, s);
            assert(tickets_at(rows_concat(rest), a, s) == Seq::<TicketView>::empty());
            assert(tickets_at(list, a, s) == Seq::<TicketView>::empty());
            assert(Seq::<TicketView>::empty() + Seq::<TicketView>::empty() == Seq::<
                TicketView,
            >::empty());
        }
    }
}

/// Copies a list of tickets to the end of another.
fn append_tickets(out: &mut Vec<Ticket>, list: &Vec<Ticket>)
    ensures
        final(out).deep_view() == old(out).deep_view() + list.deep_view(),
{
    let ghost before = out.deep_view();
    let mut i: usize = 0;
    assert(before + list.deep_view().take(0) == before);
    while i < list.len()
        invariant
            i <= list@.len(),
            out.deep_view() == before + list.deep_view().take(i as int),
        decreases list@.len() - i,
    {
        let ghost so_far = out.deep_view();
        let ticket = list[i].clone();
        out.push(ticket);
        assert(out.deep_view() == so_far.push(list.deep_view()[i as int]));
        assert(list.deep_view().take(i + 1) == list.deep_view().take(i as int).push(
            list.deep_view()[i as int],
        ));
        i = i + 1;
    }
    assert(list.deep_view().take(list@.len() as int) == list.deep_view());
}

/// Collects the tickets of some status directories.
fn collect_status_dirs(dirs: &StatusDirs) -> (out: Vec<Ticket>)
    ensures
        forall|t: TicketView|
            #![trigger out.deep_view().to_multiset().count(t)]
            out.deep_view().to_multiset().count(t) == map_sum(dirs@, occurrences(t)),
        forall|assignee: Seq<char>, s: Seq<char>|
            dirs_placed(dirs@, assignee) ==> #[trigger] tickets_at(out.deep_view(), assignee, s)
                == tickets_under(dirs@, s),
        forall|assignee: Seq<char>, a: Seq<char>, s: Seq<char>|
            #![trigger dirs_placed(dirs@, assignee), tickets_at(out.deep_view(), a, s)]
            dirs_placed(dirs@, assignee) && a != assignee ==> tickets_at(out.deep_view(), a, s)
                == Seq::<TicketView>::empty(),
{
    let rows = dirs.len();
    let ghost all = dirs.rows();
    let mut out: Vec<Ticket> = Vec::new();
    let mut i: usize = 0;
    assert(out.deep_view() == rows_concat(all.take(0)));
    while i < rows
        invariant
            i <= rows == all.len(),
            all == dirs.rows(),
            out.deep_view() == rows_concat(all.take(i as int)),
        decreases rows - i,
    {
        assert(all.take(i + 1).drop_last() == all.take(i as int));
        append_tickets(&mut out, dirs.value_at(i));
        i = i + 1;
    }
    proof {
        assert(all.take(all.len() as int) == all);
        assert forall|t: TicketView|
            #![trigger out.deep_view().to_multiset().count(t)]
            out.deep_view().to_multiset().count(t) == map_sum(dirs@, occurrences(t)) by {
            lemma_rows_concat_occurrences(all, t);
            lemma_rows_sum(all, occurrences(t));
        }
        assert forall|assignee: Seq<char>, s: Seq<char>|
            dirs_placed(dirs@, assignee) implies #[trigger] tickets_at(
            out.deep_view(),
            assignee,
            s,
        ) == tickets_under(dirs@, s) by {
            lemma_rows_concat_places(all, assignee);
        }
        assert forall|assignee: Seq<char>, a: Seq<char>, s: Seq<char>|
            #![trigger dirs_placed(dirs@, assignee), tickets_at(out.deep_view(), a, s)]
            dirs_placed(dirs@, assignee) && a != assignee implies tickets_at(out.deep_view(), a, s)
            == Seq::<TicketView>::empty() by {
            lemma_rows_concat_places(all, assignee);
        }
    }
    out
}

/// Collects the tickets of a project. Where they are all under their own assignee and status, the
/// collected tickets make the same tree again.
pub fn collect_project(tree: &ProjectTree) -> (out: Vec<Ticket>)
    ensures
        forall|t: TicketView|
            #![trigger out.deep_view().to_multiset().count(t)]
            out.deep_view().to_multiset().count(t) == map_sum(tree@, dirs_sum(occurrences(t))),
        well_placed(tree@) ==> project_tree(out.deep_view()) == tree@,
{
    let rows = tree.len();
    let ghost all = tree.rows();
    let ghost none: Seq<TicketView> = Seq::empty();
    let mut out: Vec<Ticket> = Vec::new();
    let mut i: usize = 0;
    proof {
        assert(out.deep_view() == none);
        none.to_multiset_ensures();
        lemma_all_belong(none, Seq::empty(), Seq::empty());
        lemma_rows_map(all);
    }
    while i < rows
        invariant
            i <= rows == all.len(),
            all == tree.rows(),
            distinct_keys(all),
            tree@ == rows_map(all),
            forall|t: TicketView|
                #![trigger out.deep_view().to_multiset().count(t)]
                out.deep_view().to_multiset().count(t) == rows_sum(
                    all.take(i as int),
                    dirs_sum(occurrences(t)),
                ),
            well_placed(tree@) ==> forall|a: Seq<char>, s: Seq<char>| #[trigger]
                tickets_at(out.deep_view(), a, s) == tickets_in(
                    rows_map(all.take(i as int)),
                    a,
                    s,
                ),
        decreases rows - i,
    {
        let ghost before = out.deep_view();
        let dirs = tree.value_at(i);
        let ghost assignee = all[i as int].0;
        let chunk = collect_status_dirs(dirs);
        append_tickets(&mut out, &chunk);
        proof {
            let first = all.take(i as int);
            let more = all.take(i + 1);
            assert(more.drop_last() == first);
            assert(more.last() == all[i as int]);
            assert forall|t: TicketView|
                #![trigger out.deep_view().to_multiset().count(t)]
                out.deep_view().to_multiset().count(t) == rows_sum(
                    more,
                    dirs_sum(occurrences(t)),
                ) by {
                vstd::seq_lib::lemma_multiset_commutative(before, chunk.deep_view());
                assert(before.to_multiset().count(t) == rows_sum(
                    first,
                    dirs_sum(occurrences(t)),
                ));
                assert(chunk.deep_view().to_multiset().count(t) == map_sum(
                    dirs@,
                    occurrences(t),
                ));
            }
            if well_placed(tree@) {
                lemma_rows_map(all);
                lemma_rows_map(first);
                assert(tree@.contains_key(all[i as int].0));
                assert(dirs_placed(dirs@, assignee));
                assert(!rows_map(first).contains_key(assignee)) by {
                    if rows_map(first).contains_key(assignee) {
                        let j = choose|j: int|
                            0 <= j < first.len() && (#[trigger] first[j]).0 == assignee;
                        assert(all[j].0 == all[i as int].0);
                    }
                }
                assert forall|a: Seq<char>, s: Seq<char>| #[trigger]
                    tickets_at(out.deep_view(), a, s) == tickets_in(rows_map(more), a, s) by {
                    lemma_tickets_at_concat(before, chunk.deep_view(), a, s);
                    assert(tickets_at(before, a, s) == tickets_in(rows_map(first), a, s));
                    if a == assignee {
                        assert(tickets_at(chunk.deep_view(), a, s) == tickets_under(dirs@, s));
                        assert(Seq::<TicketView>::empty() + tickets_under(dirs@, s)
                            == tickets_under(dirs@, s));
                    } else {
                        assert(tickets_at(chunk.deep_view(), a, s) == Seq::<
                            TicketView,
                        >::empty());
                        assert(tickets_at(before, a, s) + Seq::<TicketView>::empty()
                            == tickets_at(before, a, s));
                    }
                }
            }
        }
        i = i + 1;
    }
    proof {
        assert(all.take(all.len() as int) == all);
        assert forall|t: TicketView|
            #![trigger out.deep_view().to_multiset().count(t)]
            out.deep_view().to_multiset().count(t) == map_sum(
                tree@,
                dirs_sum(occurrences(t)),
            ) by {
            lemma_rows_sum(all, dirs_sum(occurrences(t)));
        }
        if well_placed(tree@) {
            lemma_tree_is_determined(tree@, out.deep_view());
        }
    }
    out
}

// ---------------------------------------------------------------------------
// Laws of the tree
// ---------------------------------------------------------------------------

/// Whether a slug is that of a whole text, or of a stand-in where the text is empty.
pub open spec fn is_slug_of_whole(slug: Seq<char>, text: Seq<char>, stand_in: Seq<char>) -> bool {
    (text.len() > 0 && slug == slug_of(text)) || (text.len() == 0 && slug == slug_of(stand_in))
}

/// Whether a directory is that of a ticket: the slug of its whole assignee text, or of
/// `unassigned` where that is empty, and below it the slug of its whole status text, or of
/// `no-status` where that is empty.
pub open spec fn is_directory_of(t: TicketView, assignee: Seq<char>, status: Seq<char>) -> bool {
    is_slug_of_whole(assignee, t.assignee, "unassigned"@) && is_slug_of_whole(
        status,
        t.status,
        "no-status"@,
    )
}

/// Every ticket is filed in its directory: that of its whole assignee and status texts.
pub proof fn law_ticket_is_filed_under_its_whole_names(
    tickets: Seq<TicketView>,
    i: int,
    assignee: Seq<char>,
    status: Seq<char>,
)
    requires
        0 <= i < tickets.len(),
        is_directory_of(tickets[i], assignee, status),
    ensures
        project_tree(tickets).contains_key(assignee),
        project_tree(tickets)[assignee].contains_key(status),
        project_tree(tickets)[assignee][status].contains(tickets[i]),
{
    broadcast use vstd::seq_lib::group_filter_ensures;

    let t = tickets[i];
    let pred = |u: TicketView| belongs(u, assignee, status);
    assert(belongs(t, assignee, status));
    assert(has_assignee(tickets, assignee));
    assert(has_status(tickets, assignee, status));
    assert(pred(t));
    assert(tickets.contains(t));
    assert(tickets_at(tickets, assignee, status).contains(t));
}

/// A directory holds exactly those of the tickets whose directory it is, in their order and as
/// often as they occur. There is no other directory, and so two tickets share an assignee's
/// directory only where the slugs of their whole assignee texts are the same.
pub proof fn law_directory_holds_its_own_tickets(
    tickets: Seq<TicketView>,
    assignee: Seq<char>,
    status: Seq<char>,
)
    requires
        project_tree(tickets).contains_key(assignee),
    ensures
        exists|i: int|
            0 <= i < tickets.len() && is_slug_of_whole(
                assignee,
                (#[trigger] tickets[i]).assignee,
                "unassigned"@,
            ),
        project_tree(tickets)[assignee].contains_key(status)
            ==> project_tree(tickets)[assignee][status] == tickets.filter(
            |t: TicketView| is_directory_of(t, assignee, status),
        ) && project_tree(tickets)[assignee][status].len() > 0,
{
    let pred = |t: TicketView| belongs(t, assignee, status);
    let own = |t: TicketView| is_directory_of(t, assignee, status);
    assert forall|t: TicketView| #[trigger] pred(t) == own(t) by {}
    assert(pred =~= own);
    let i = choose|i: int|
        0 <= i < tickets.len() && assignee_slug(#[trigger] tickets[i]) == assignee;
    assert(is_slug_of_whole(assignee, tickets[i].assignee, "unassigned"@));
    lemma_tickets_at(tickets, assignee, status);
}

/// Tickets in one assignee's directory have one slug of their whole assignee texts.
pub proof fn law_shared_directory_means_same_slug(
    tickets: Seq<TicketView>,
    i: int,
    j: int,
    assignee: Seq<char>,
)
    requires
        0 <= i < tickets.len(),
        0 <= j < tickets.len(),
        is_slug_of_whole(assignee, tickets[i].assignee, "unassigned"@),
    ensures
        project_tree(tickets).contains_key(assignee),
        (exists|status: Seq<char>| #[trigger]
            project_tree(tickets)[assignee].contains_key(status)
                && project_tree(tickets)[assignee][status].contains(tickets[j]))
            <==> is_slug_of_whole(assignee, tickets[j].assignee, "unassigned"@),
{
    broadcast use vstd::seq_lib::group_filter_ensures;

    let tree = project_tree(tickets);
    let si = status_slug(tickets[i]);
    law_ticket_is_filed_under_its_whole_names(tickets, i, assignee, si);
    if is_slug_of_whole(assignee, tickets[j].assignee, "unassigned"@) {
        let sj = status_slug(tickets[j]);
        law_ticket_is_filed_under_its_whole_names(tickets, j, assignee, sj);
        assert(tree[assignee].contains_key(sj));
    }
    if exists|status: Seq<char>| #[trigger]
        tree[assignee].contains_key(status) && tree[assignee][status].contains(tickets[j]) {
        let s = choose|status: Seq<char>| #[trigger]
            tree[assignee].contains_key(status) && tree[assignee][status].contains(tickets[j]);
        law_directory_holds_its_own_tickets(tickets, assignee, s);
        let own = |t: TicketView| is_directory_of(t, assignee, s);
        assert(tickets.filter(own).contains(tickets[j]));
        assert(own(tickets[j]));
    }
}

/// A slug stands for the whole text that it came from last: for the status of the last ticket that
/// has it as its status or assignee, or else for that ticket's assignee.
pub proof fn law_last_display_name_stands(
    slugs: Map<Seq<char>, Seq<char>>,
    tickets: Seq<TicketView>,
    slug: Seq<char>,
    i: int,
)
    requires
        0 <= i < tickets.len(),
        is_slug_of_whole(slug, tickets[i].assignee, "unassigned"@) || is_slug_of_whole(
            slug,
            tickets[i].status,
            "no-status"@,
        ),
        forall|j: int|
            i < j < tickets.len() ==> !is_slug_of_whole(
                slug,
                (#[trigger] tickets[j]).assignee,
                "unassigned"@,
            ) && !is_slug_of_whole(slug, tickets[j].status, "no-status"@),
    ensures
        with_slugs(slugs, tickets).contains_key(slug),
        ({
            let name = with_slugs(slugs, tickets)[slug];
            let t = tickets[i];
            if is_slug_of_whole(slug, t.status, "no-status"@) {
                if t.status.len() > 0 {
                    name == t.status
                } else {
                    name == "no-status"@
                }
            } else {
                if t.assignee.len() > 0 {
                    name == t.assignee
                } else {
                    name == "unassigned"@
                }
            }
        }),
    decreases tickets.len(),
{
    let rest = tickets.drop_last();
    let last = tickets.len() - 1;
    if i < last {
        assert(!is_slug_of_whole(slug, tickets[last].assignee, "unassigned"@));
        assert forall|j: int| i < j < rest.len() implies !is_slug_of_whole(
            slug,
            (#[trigger] rest[j]).assignee,
            "unassigned"@,
        ) && !is_slug_of_whole(slug, rest[j].status, "no-status"@) by {
            assert(rest[j] == tickets[j]);
        }
        assert(rest[i] == tickets[i]);
        law_last_display_name_stands(slugs, rest, slug, i);
    }
}

/// The tickets of a tree are those of its projects: each project adds as many as it was built from.
pub proof fn law_tree_counts_every_project(
    tree: TreeView,
    project: Seq<char>,
    tickets: Seq<TicketView>,
)
    requires
        tree.dom().finite(),
        !tree.contains_key(project),
    ensures
        tree_count(tree.insert(project, project_tree(tickets))) == tree_count(tree)
            + tickets.len(),
        tree_count(Map::empty()) == 0,
{
    law_no_ticket_is_lost(tickets);
    lemma_map_sum_insert(tree, project_sum(list_len()), project, project_tree(tickets));
    assert(project_sum(list_len())(project_tree(tickets)) == project_count(
        project_tree(tickets),
    ));
}

} // verus!
