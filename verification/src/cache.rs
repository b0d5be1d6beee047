//! The tickets of all configured projects: what is held of them, how it is loaded from the disk
//! cache and refreshed from the API, and what is saved. Reading and writing files and asking the
//! API is left to the caller.

use std::sync::Arc;

use vstd::prelude::*;

use crate::client::{children_url, BlocksQuery, NotionClient, Paging};
use crate::config::{Config, ProjectConfigView};
use crate::dict::{
    clones_hold_the_same, distinct_keys, lemma_dict_clones, lemma_list_clones, lemma_rows_map,
    rows_map, Dict,
};
use crate::json::Json;
use crate::lookup::{
    describe_ticket, finite_tree, law_description_changes_nothing_else, tree_placed,
    with_description,
};
use crate::notion::{ticket_of_page, Ticket, TicketView};
use crate::path::{join, joined};
use crate::slug::{
    base_letters, is_slug, law_collapse_is_slug, slug_char, slug_of, slugify,
};
use crate::sums::{lemma_map_sum_insert, lemma_map_sum_remove, map_sum};
use crate::text::{optional_text, same_text, texts_of};
use crate::tree::{
    assignee_slug, belongs, build_project_tree, collect_project, count_tree, law_no_ticket_is_lost,
    law_slugs_lead_to_display_names, law_tickets_are_placed, slug_occurs, lemma_project_tree_finite, list_len, project_count, project_sum,
    project_tree, status_slug, tree_count, well_placed, with_slugs, ProjectTree, ProjectTreeView,
    StatusDirs, Tree, TreeView,
};

verus! {

// ---------------------------------------------------------------------------
// What is held
// ---------------------------------------------------------------------------

/// The tree of tickets, and the display names that the slugs in it stand for, while they are built.
struct Holdings {
    pub tree: Tree,
    pub slug_map: Dict<String>,
}

/// What is held, as maps.
#[verifier::ext_equal]
pub struct HoldingsView {
    pub tree: TreeView,
    pub slug_map: Map<Seq<char>, Seq<char>>,
}

impl View for Holdings {
    type V = HoldingsView;

    closed spec fn view(&self) -> HoldingsView {
        HoldingsView { tree: self.tree@, slug_map: self.slug_map@ }
    }
}

/// The tree of tickets and the display names, as they are shared with readers.
struct Shared {
    tree: Arc<Tree>,
    slug_map: Arc<Dict<String>>,
}

impl View for Shared {
    type V = HoldingsView;

    closed spec fn view(&self) -> HoldingsView {
        HoldingsView { tree: self.tree@, slug_map: self.slug_map@ }
    }
}

/// Trusts `Arc::clone` of std: it gives another pointer to the same value.
#[verifier::external_body]
fn share<T>(shared: &Arc<T>) -> (again: Arc<T>)
    ensures
        again == *shared,
{
    Arc::clone(shared)
}

impl Holdings {
    /// Nothing yet.
    fn new() -> (held: Self)
        ensures
            held@ == nothing_held(),
    {
        Holdings { tree: Dict::new(), slug_map: Dict::new() }
    }

    /// Shares what was built with readers.
    fn publish(self) -> (shared: Shared)
        ensures
            shared@ == self@,
    {
        Shared { tree: Arc::new(self.tree), slug_map: Arc::new(self.slug_map) }
    }
}

impl Shared {
    /// A copy to build on. What is shared stays as it is.
    fn copy(&self) -> (held: Holdings)
        ensures
            held@ == self@,
    {
        proof {
            assert(clones_hold_the_same::<Ticket>());
            lemma_list_clones::<Ticket>();
            lemma_dict_clones::<Vec<Ticket>>();
            lemma_dict_clones::<StatusDirs>();
            assert(clones_hold_the_same::<ProjectTree>());
            assert(clones_hold_the_same::<String>());
        }
        Holdings { tree: (*self.tree).clone(), slug_map: (*self.slug_map).clone() }
    }
}

/// Nothing held.
pub open spec fn nothing_held() -> HoldingsView {
    HoldingsView { tree: Map::empty(), slug_map: Map::empty() }
}

/// What is held once a project has the given tickets and no others.
pub open spec fn filed(
    held: HoldingsView,
    name: Seq<char>,
    tickets: Seq<TicketView>,
) -> HoldingsView {
    HoldingsView {
        tree: held.tree.insert(slug_of(name), project_tree(tickets)),
        slug_map: with_slugs(held.slug_map.insert(slug_of(name), name), tickets),
    }
}

/// What is held once each of some projects, one after the other, has its tickets.
pub open spec fn filed_all(
    held: HoldingsView,
    batches: Seq<(Seq<char>, Seq<TicketView>)>,
) -> HoldingsView
    decreases batches.len(),
{
    if batches.len() == 0 {
        held
    } else {
        filed(
            filed_all(held, batches.drop_last()),
            batches.last().0,
            batches.last().1,
        )
    }
}

/// The number of tickets of some projects.
pub open spec fn batches_len(batches: Seq<(Seq<char>, Seq<TicketView>)>) -> nat
    decreases batches.len(),
{
    if batches.len() == 0 {
        0
    } else {
        batches_len(batches.drop_last()) + batches.last().1.len()
    }
}

/// Whether every slug stands for a display name that it is the slug of.
pub open spec fn slugs_lead_back(slug_map: Map<Seq<char>, Seq<char>>) -> bool {
    forall|k: Seq<char>| #[trigger] slug_map.contains_key(k) ==> slug_of(slug_map[k]) == k
}

/// Whether every directory name of a project is the slug of some display name that is known.
pub open spec fn project_is_named(
    project: ProjectTreeView,
    slug_map: Map<Seq<char>, Seq<char>>,
) -> bool {
    &&& forall|a: Seq<char>| #[trigger] project.contains_key(a) ==> slug_map.contains_key(a)
    &&& forall|a: Seq<char>, s: Seq<char>|
        project.contains_key(a) && #[trigger] project[a].contains_key(s)
            ==> slug_map.contains_key(s)
}

/// Whether every directory name of the tree is the slug of some display name that is known.
pub open spec fn tree_is_named(held: HoldingsView) -> bool {
    forall|p: Seq<char>| #[trigger]
        held.tree.contains_key(p) ==> held.slug_map.contains_key(p) && project_is_named(
            held.tree[p],
            held.slug_map,
        )
}

/// What holds of everything that is ever held.
pub open spec fn in_order(held: HoldingsView) -> bool {
    &&& finite_tree(held.tree)
    &&& tree_placed(held.tree)
    &&& slugs_lead_back(held.slug_map)
    &&& tree_is_named(held)
}

/// The slug map keeps its slugs, gains those of the tickets, and still leads back.
proof fn lemma_with_slugs(slugs: Map<Seq<char>, Seq<char>>, tickets: Seq<TicketView>)
    ensures
        forall|k: Seq<char>| #[trigger]
            slugs.contains_key(k) ==> with_slugs(slugs, tickets).contains_key(k),
        forall|i: int|
            0 <= i < tickets.len() ==> with_slugs(slugs, tickets).contains_key(
                assignee_slug(#[trigger] tickets[i]),
            ) && with_slugs(slugs, tickets).contains_key(status_slug(tickets[i])),
        slugs_lead_back(slugs) ==> slugs_lead_back(with_slugs(slugs, tickets)),
    decreases tickets.len(),
{
    if tickets.len() > 0 {
        let rest = tickets.drop_last();
        lemma_with_slugs(slugs, rest);
        assert forall|i: int| 0 <= i < tickets.len() implies with_slugs(
            slugs,
            tickets,
        ).contains_key(assignee_slug(#[trigger] tickets[i])) && with_slugs(
            slugs,
            tickets,
        ).contains_key(status_slug(tickets[i])) by {
            if i < rest.len() {
                assert(rest[i] == tickets[i]);
            }
        }
    }
}

/// Filing the tickets of a project keeps what holds of everything held.
proof fn lemma_filed(held: HoldingsView, name: Seq<char>, tickets: Seq<TicketView>)
    requires
        in_order(held),
    ensures
        in_order(filed(held, name, tickets)),
{
    let after = filed(held, name, tickets);
    let slug = slug_of(name);
    let tree = project_tree(tickets);
    let base = held.slug_map.insert(slug, name);
    lemma_with_slugs(base, tickets);
    lemma_project_tree_finite(tickets);
    law_tickets_are_placed(tickets);
    assert(slugs_lead_back(base));
    assert(finite_tree(after.tree)) by {
        assert forall|p: Seq<char>, a: Seq<char>|
            after.tree.contains_key(p) && #[trigger] after.tree[p].contains_key(
                a,
            ) implies after.tree[p][a].dom().finite() by {
            if p != slug {
                assert(held.tree[p].contains_key(a));
            }
        }
    }
    assert(project_is_named(tree, after.slug_map)) by {
        assert forall|a: Seq<char>| #[trigger] tree.contains_key(a) implies after.slug_map.contains_key(
            a,
        ) by {
            let i = choose|i: int|
                0 <= i < tickets.len() && assignee_slug(#[trigger] tickets[i]) == a;
            assert(after.slug_map.contains_key(assignee_slug(tickets[i])));
        }
        assert forall|a: Seq<char>, s: Seq<char>|
            tree.contains_key(a) && #[trigger] tree[a].contains_key(
                s,
            ) implies after.slug_map.contains_key(s) by {
            let i = choose|i: int|
                0 <= i < tickets.len() && belongs(#[trigger] tickets[i], a, s);
            assert(after.slug_map.contains_key(status_slug(tickets[i])));
        }
    }
    assert forall|p: Seq<char>| #[trigger]
        after.tree.contains_key(p) implies after.slug_map.contains_key(p) && project_is_named(
        after.tree[p],
        after.slug_map,
    ) by {
        if p != slug {
            assert(held.tree.contains_key(p));
            assert(base.contains_key(p));
            let project = held.tree[p];
            assert forall|a: Seq<char>| #[trigger]
                project.contains_key(a) implies after.slug_map.contains_key(a) by {
                assert(held.slug_map.contains_key(a));
                assert(base.contains_key(a));
            }
            assert forall|a: Seq<char>, s: Seq<char>|
                project.contains_key(a) && #[trigger] project[a].contains_key(
                    s,
                ) implies after.slug_map.contains_key(s) by {
                assert(held.slug_map.contains_key(s));
                assert(base.contains_key(s));
            }
        } else {
            assert(base.contains_key(p));
        }
    }
    assert(tree_placed(after.tree)) by {
        assert forall|p: Seq<char>| #[trigger] after.tree.contains_key(p) implies well_placed(
            after.tree[p],
        ) by {
            if p != slug {
                assert(held.tree.contains_key(p));
            }
        }
    }
}

/// Nothing that a load or a refresh files ever breaks the order of what is held: every ticket is
/// under its own assignee and status, and every directory name leads back to a display name that
/// it is the slug of.
pub proof fn law_filing_keeps_order(
    held: HoldingsView,
    batches: Seq<(Seq<char>, Seq<TicketView>)>,
)
    requires
        in_order(held),
    ensures
        in_order(filed_all(held, batches)),
    decreases batches.len(),
{
    if batches.len() > 0 {
        law_filing_keeps_order(held, batches.drop_last());
        lemma_filed(
            filed_all(held, batches.drop_last()),
            batches.last().0,
            batches.last().1,
        );
    }
}

/// Filing one project leaves every other project as it was.
pub proof fn law_filing_keeps_other_projects(
    held: HoldingsView,
    name: Seq<char>,
    tickets: Seq<TicketView>,
    other: Seq<char>,
)
    requires
        other != slug_of(name),
    ensures
        filed(held, name, tickets).tree.contains_key(other) == held.tree.contains_key(other),
        filed(held, name, tickets).tree[other] == held.tree[other],
{
}

/// Whether one of some projects has the given slug.
pub open spec fn batch_of_slug(
    batches: Seq<(Seq<char>, Seq<TicketView>)>,
    slug: Seq<char>,
) -> bool {
    exists|i: int| 0 <= i < batches.len() && slug_of((#[trigger] batches[i]).0) == slug
}

/// A new tree never mixes old and new: it has the projects that were filed and those that were
/// held, each of those that were filed is made of the tickets of one batch and nothing else, and
/// every other is as it was.
pub proof fn law_new_tree_is_whole(
    held: HoldingsView,
    batches: Seq<(Seq<char>, Seq<TicketView>)>,
    slug: Seq<char>,
)
    ensures
        ({
            let after = filed_all(held, batches).tree;
            if batch_of_slug(batches, slug) {
                after.contains_key(slug) && exists|i: int|
                    0 <= i < batches.len() && slug_of((#[trigger] batches[i]).0) == slug
                        && after[slug] == project_tree(batches[i].1)
            } else {
                after.contains_key(slug) == held.tree.contains_key(slug) && after[slug]
                    == held.tree[slug]
            }
        }),
    decreases batches.len(),
{
    if batches.len() > 0 {
        let rest = batches.drop_last();
        let last = batches.len() - 1;
        let after = filed_all(held, batches).tree;
        law_new_tree_is_whole(held, rest, slug);
        if slug_of(batches[last].0) == slug {
            assert(after[slug] == project_tree(batches[last].1));
        } else if batch_of_slug(batches, slug) {
            let i = choose|i: int|
                0 <= i < batches.len() && slug_of((#[trigger] batches[i]).0) == slug;
            assert(rest[i] == batches[i]);
            assert(batch_of_slug(rest, slug));
            let j = choose|j: int|
                0 <= j < rest.len() && slug_of((#[trigger] rest[j]).0) == slug
                    && filed_all(held, rest).tree[slug] == project_tree(rest[j].1);
            assert(batches[j] == rest[j]);
        } else {
            assert(!batch_of_slug(rest, slug)) by {
                if batch_of_slug(rest, slug) {
                    let i = choose|i: int|
                        0 <= i < rest.len() && slug_of((#[trigger] rest[i]).0) == slug;
                    assert(batches[i] == rest[i]);
                }
            }
        }
    }
}

/// Whether no two of some projects share a slug.
pub open spec fn distinct_slugs(batches: Seq<(Seq<char>, Seq<TicketView>)>) -> bool {
    forall|i: int, j: int|
        0 <= i < j < batches.len() ==> slug_of((#[trigger] batches[i]).0) != slug_of(
            (#[trigger] batches[j]).0,
        )
}

/// The projects that are filed are those that were held and those of the batches.
proof fn lemma_filed_projects(
    held: HoldingsView,
    batches: Seq<(Seq<char>, Seq<TicketView>)>,
    slug: Seq<char>,
)
    ensures
        filed_all(held, batches).tree.contains_key(slug) ==> held.tree.contains_key(slug)
            || exists|i: int| 0 <= i < batches.len() && slug_of((#[trigger] batches[i]).0) == slug,
    decreases batches.len(),
{
    if batches.len() > 0 {
        let rest = batches.drop_last();
        lemma_filed_projects(held, rest, slug);
        if filed_all(held, batches).tree.contains_key(slug) && !held.tree.contains_key(slug) {
            if slug == slug_of(batches.last().0) {
                assert(slug_of(batches[batches.len() - 1].0) == slug);
            } else {
                let i = choose|i: int|
                    0 <= i < rest.len() && slug_of((#[trigger] rest[i]).0) == slug;
                assert(slug_of(batches[i].0) == slug);
            }
        }
    }
}

/// Filing adds no more tickets than there are in the batches. On top of nothing, and where no two
/// projects share a slug, as many are held as were filed.
pub proof fn law_filed_tickets_count(
    held: HoldingsView,
    batches: Seq<(Seq<char>, Seq<TicketView>)>,
)
    requires
        finite_tree(held.tree),
    ensures
        finite_tree(filed_all(held, batches).tree),
        tree_count(filed_all(held, batches).tree) <= tree_count(held.tree) + batches_len(batches),
        held.tree == Map::<Seq<char>, ProjectTreeView>::empty() && distinct_slugs(
            batches,
        ) ==> tree_count(filed_all(held, batches).tree) == batches_len(batches),
    decreases batches.len(),
{
    if batches.len() > 0 {
        let rest = batches.drop_last();
        let (name, tickets) = batches.last();
        law_filed_tickets_count(held, rest);
        let before = filed_all(held, rest).tree;
        let after = filed_all(held, batches).tree;
        let slug = slug_of(name);
        lemma_project_tree_finite(tickets);
        law_no_ticket_is_lost(tickets);
        lemma_map_sum_insert(before, project_sum(list_len()), slug, project_tree(tickets));
        assert(project_sum(list_len())(project_tree(tickets)) == project_count(
            project_tree(tickets),
        ));
        if before.contains_key(slug) {
            lemma_map_sum_remove(before, project_sum(list_len()), slug);
        }
        assert forall|p: Seq<char>, a: Seq<char>|
            after.contains_key(p) && #[trigger] after[p].contains_key(
                a,
            ) implies after[p][a].dom().finite() by {
            if p != slug {
                assert(before[p].contains_key(a));
            }
        }
        if held.tree == Map::<Seq<char>, ProjectTreeView>::empty() && distinct_slugs(
            batches,
        ) {
            assert(distinct_slugs(rest)) by {
                assert forall|i: int, j: int| 0 <= i < j < rest.len() implies slug_of(
                    (#[trigger] rest[i]).0,
                ) != slug_of((#[trigger] rest[j]).0) by {
                    assert(rest[i] == batches[i] && rest[j] == batches[j]);
                }
            }
            lemma_filed_projects(held, rest, slug);
            if before.contains_key(slug) {
                let i = choose|i: int|
                    0 <= i < rest.len() && slug_of((#[trigger] rest[i]).0) == slug;
                assert(rest[i] == batches[i]);
                assert(slug_of(batches[i].0) != slug_of(batches[batches.len() - 1].0));
            }
        }
    } else if held.tree == Map::<Seq<char>, ProjectTreeView>::empty() {
        assert(map_sum(held.tree, project_sum(list_len())) == 0);
    }
}

// ---------------------------------------------------------------------------
// The disk cache
// ---------------------------------------------------------------------------

/// What a file of the disk cache was found to hold.
pub enum CacheFile {
    /// Something that is no list of tickets.
    Corrupt,
    /// The tickets of a project.
    Tickets(Vec<Ticket>),
}

impl DeepView for CacheFile {
    type V = Option<Seq<TicketView>>;

    open spec fn deep_view(&self) -> Option<Seq<TicketView>> {
        match self {
            CacheFile::Corrupt => None,
            CacheFile::Tickets(tickets) => Some(tickets.deep_view()),
        }
    }
}

/// The file of the disk cache that holds the tickets of a project.
pub open spec fn cache_path(dir: Seq<char>, slug: Seq<char>) -> Seq<char> {
    joined(dir, slug + ".json"@)
}

/// The tickets that the disk cache holds of a project, where it holds any list of tickets.
pub open spec fn cached_tickets(
    dir: Seq<char>,
    name: Seq<char>,
    files: Map<Seq<char>, Option<Seq<TicketView>>>,
) -> Option<Seq<TicketView>> {
    let path = cache_path(dir, slug_of(name));
    if files.contains_key(path) {
        files[path]
    } else {
        None
    }
}

/// The projects whose tickets are in the disk cache, with their tickets.
pub open spec fn disk_batches(
    projects: Seq<(Seq<char>, ProjectConfigView)>,
    dir: Seq<char>,
    files: Map<Seq<char>, Option<Seq<TicketView>>>,
) -> Seq<(Seq<char>, Seq<TicketView>)>
    decreases projects.len(),
{
    if projects.len() == 0 {
        Seq::empty()
    } else {
        let earlier = disk_batches(projects.drop_last(), dir, files);
        let name = projects.last().0;
        match cached_tickets(dir, name, files) {
            Some(tickets) => earlier.push((name, tickets)),
            None => earlier,
        }
    }
}

/// The projects whose file in the disk cache is no list of tickets.
pub open spec fn corrupt_names(
    projects: Seq<(Seq<char>, ProjectConfigView)>,
    dir: Seq<char>,
    files: Map<Seq<char>, Option<Seq<TicketView>>>,
) -> Seq<Seq<char>>
    decreases projects.len(),
{
    if projects.len() == 0 {
        Seq::empty()
    } else {
        let earlier = corrupt_names(projects.drop_last(), dir, files);
        let name = projects.last().0;
        let path = cache_path(dir, slug_of(name));
        if files.contains_key(path) && files[path] is None {
            earlier.push(name)
        } else {
            earlier
        }
    }
}

/// The files that are written to hold the tickets of some projects.
pub open spec fn saved_files(
    dir: Option<Seq<char>>,
    batches: Seq<(Seq<char>, Seq<TicketView>)>,
) -> Map<Seq<char>, Seq<TicketView>>
    decreases batches.len(),
{
    if batches.len() == 0 || dir is None {
        Map::empty()
    } else {
        saved_files(dir, batches.drop_last()).insert(
            cache_path(dir->0, slug_of(batches.last().0)),
            batches.last().1,
        )
    }
}

// ---------------------------------------------------------------------------
// Refreshing
// ---------------------------------------------------------------------------

/// Whether a project is to be refreshed: the named one, or any where none is named.
pub open spec fn picked(name: Seq<char>, project: Option<Seq<char>>) -> bool {
    project is None || project == Some(name)
}

/// The projects that are to be refreshed, with the databases that hold their tickets.
pub open spec fn refresh_requests(
    projects: Seq<(Seq<char>, ProjectConfigView)>,
    project: Option<Seq<char>>,
) -> Seq<(Seq<char>, Seq<char>)>
    decreases projects.len(),
{
    if projects.len() == 0 {
        Seq::empty()
    } else {
        let earlier = refresh_requests(projects.drop_last(), project);
        let (name, config) = projects.last();
        if picked(name, project) {
            earlier.push((name, config.database_id))
        } else {
            earlier
        }
    }
}

/// The tickets that some pages describe.
pub open spec fn tickets_of_pages(pages: Seq<Json>) -> Seq<TicketView> {
    pages.map_values(|page: Json| ticket_of_page(page))
}

/// The projects that are refreshed, those of which the pages came in, with their tickets.
pub open spec fn page_batches(
    projects: Seq<(Seq<char>, ProjectConfigView)>,
    project: Option<Seq<char>>,
    pages: Map<Seq<char>, Seq<Json>>,
) -> Seq<(Seq<char>, Seq<TicketView>)>
    decreases projects.len(),
{
    if projects.len() == 0 {
        Seq::empty()
    } else {
        let earlier = page_batches(projects.drop_last(), project, pages);
        let name = projects.last().0;
        if picked(name, project) && pages.contains_key(name) {
            earlier.push((name, tickets_of_pages(pages[name])))
        } else {
            earlier
        }
    }
}

/// Whether a name is that of a configured project.
pub open spec fn is_configured(
    projects: Seq<(Seq<char>, ProjectConfigView)>,
    name: Seq<char>,
) -> bool {
    exists|i: int| 0 <= i < projects.len() && (#[trigger] projects[i]).0 == name
}

/// The last configured name with the given slug.
pub open spec fn configured_name(
    projects: Seq<(Seq<char>, ProjectConfigView)>,
    slug: Seq<char>,
) -> Option<Seq<char>>
    decreases projects.len(),
{
    if projects.len() == 0 {
        None
    } else if slug_of(projects.last().0) == slug {
        Some(projects.last().0)
    } else {
        configured_name(projects.drop_last(), slug)
    }
}

// ---------------------------------------------------------------------------
// The cache
// ---------------------------------------------------------------------------

/// The cache: the configuration, what is held, the client, and the directory of the disk cache.
pub struct NotionCache {
    config: Config,
    held: Shared,
    client: NotionClient,
    cache_dir: Option<String>,
}

/// The state of the cache.
#[verifier::ext_equal]
pub struct CacheView {
    /// The configured projects, in the order of the configuration.
    pub projects: Seq<(Seq<char>, ProjectConfigView)>,
    pub default_project: Seq<char>,
    pub users: Map<Seq<char>, Seq<char>>,
    pub held: HoldingsView,
    pub token: Seq<char>,
    pub cache_dir: Option<Seq<char>>,
}

impl View for NotionCache {
    type V = CacheView;

    closed spec fn view(&self) -> CacheView {
        CacheView {
            projects: self.config.projects.rows(),
            default_project: self.config.default_project@,
            users: self.config.users@,
            held: self.held@,
            token: self.client.token_text(),
            cache_dir: match self.cache_dir {
                Some(dir) => Some(dir@),
                None => None,
            },
        }
    }
}

/// The tickets that a load from the disk cache files.
pub open spec fn loaded_batches(
    cache: CacheView,
    files: Map<Seq<char>, Option<Seq<TicketView>>>,
) -> Seq<(Seq<char>, Seq<TicketView>)> {
    match cache.cache_dir {
        Some(dir) => disk_batches(cache.projects, dir, files),
        None => Seq::empty(),
    }
}

/// What is held after a load from the disk cache: what is in it and nothing else. Without a disk
/// cache nothing changes.
pub open spec fn loaded(
    cache: CacheView,
    files: Map<Seq<char>, Option<Seq<TicketView>>>,
) -> HoldingsView {
    match cache.cache_dir {
        Some(dir) => filed_all(nothing_held(), loaded_batches(cache, files)),
        None => cache.held,
    }
}

/// What is held after a refresh: with a project named, what was held with that project renewed;
/// else the renewed projects and nothing else.
pub open spec fn refreshed(
    cache: CacheView,
    project: Option<Seq<char>>,
    pages: Map<Seq<char>, Seq<Json>>,
) -> HoldingsView {
    filed_all(
        if project is Some {
            cache.held
        } else {
            nothing_held()
        },
        page_batches(cache.projects, project, pages),
    )
}

/// The name by which a project's directory is refreshed: the display name that its slug stands for.
/// Where that is no project's, as when an assignee or a status with the same slug has taken its
/// place, it is the configured name with that slug.
pub open spec fn project_name_of(cache: CacheView, slug: Seq<char>) -> Seq<char> {
    let slug_map = cache.held.slug_map;
    if slug_map.contains_key(slug) && is_configured(cache.projects, slug_map[slug]) {
        slug_map[slug]
    } else {
        match configured_name(cache.projects, slug) {
            Some(name) => name,
            None => if slug_map.contains_key(slug) {
                slug_map[slug]
            } else {
                slug
            },
        }
    }
}

/// The outcome of a refresh.
pub struct Refreshed {
    /// The number of tickets in the tree.
    pub total: usize,
    /// The files to write, each with the tickets that it is to hold.
    pub files: Dict<Vec<Ticket>>,
}

/// Files the tickets of a project.
fn file_tickets(held: &mut Holdings, name: &String, tickets: &Vec<Ticket>)
    ensures
        final(held)@ == filed(old(held)@, name@, tickets.deep_view()),
{
    let slug = slugify(name.as_str());
    held.slug_map.insert(slug.clone(), name.clone());
    let project = build_project_tree(tickets, &mut held.slug_map);
    held.tree.insert(slug, project);
}

/// The file of the disk cache that holds the tickets of a project.
fn path_in_cache(dir: &str, slug: &str) -> (path: String)
    ensures
        path@ == cache_path(dir@, slug@),
{
    let mut name = slug.to_string();
    name.push_str(".json");
    join(dir, name.as_str())
}

/// Reads the tickets of a project from its pages.
pub fn read_tickets(pages: &Vec<Json>) -> (tickets: Vec<Ticket>)
    ensures
        tickets.deep_view() == tickets_of_pages(pages@),
{
    let mut tickets: Vec<Ticket> = Vec::new();
    let mut i: usize = 0;
    while i < pages.len()
        invariant
            i <= pages@.len(),
            tickets.deep_view() == tickets_of_pages(pages@.take(i as int)),
        decreases pages@.len() - i,
    {
        let ghost so_far = tickets.deep_view();
        let ticket = Ticket::from_page(&pages[i]);
        tickets.push(ticket);
        assert(tickets.deep_view() == so_far.push(ticket@));
        assert(tickets_of_pages(pages@.take(i + 1)) == tickets_of_pages(
            pages@.take(i as int),
        ).push(ticket@));
        i = i + 1;
    }
    assert(pages@.take(pages@.len() as int) == pages@);
    tickets
}

impl NotionCache {
    #[verifier::type_invariant]
    spec fn is_in_order(self) -> bool {
        in_order(self.held@) && tree_count(self.held@.tree) <= usize::MAX
    }

    /// A cache that holds nothing yet.
    pub fn new(config: Config, client: NotionClient, cache_dir: Option<String>) -> (cache: Self)
        ensures
            cache@.projects == config.projects.rows(),
            cache@.default_project == config.default_project@,
            cache@.users == config.users@,
            cache@.held == nothing_held(),
            cache@.token == client.token_text(),
            cache@.cache_dir == match cache_dir {
                Some(dir) => Some(dir@),
                None => None,
            },
    {
        let held = Holdings::new();
        assert(tree_count(held@.tree) == 0);
        NotionCache { config, held: held.publish(), client, cache_dir }
    }

    /// The files that the disk cache may have for the configured projects.
    pub fn cache_files(&self) -> (paths: Vec<String>)
        ensures
            paths@.len() == if self@.cache_dir is Some {
                self@.projects.len()
            } else {
                0
            },
            forall|i: int|
                0 <= i < paths@.len() ==> (#[trigger] paths@[i])@ == cache_path(
                    self@.cache_dir->0,
                    slug_of(self@.projects[i].0),
                ),
    {
        let mut paths: Vec<String> = Vec::new();
        if let Some(dir) = &self.cache_dir {
            let n = self.config.projects.len();
            let mut i: usize = 0;
            while i < n
                invariant
                    i <= n == self@.projects.len(),
                    self@.projects == self.config.projects.rows(),
                    self@.cache_dir == Some(dir@),
                    paths@.len() == i,
                    forall|j: int|
                        0 <= j < i ==> (#[trigger] paths@[j])@ == cache_path(
                            self@.cache_dir->0,
                            slug_of(self@.projects[j].0),
                        ),
                decreases n - i,
            {
                let slug = slugify(self.config.projects.key_at(i).as_str());
                paths.push(path_in_cache(dir.as_str(), slug.as_str()));
                i = i + 1;
            }
        }
        paths
    }

    /// Counts the tickets that a load from the disk cache would file, where their number can be
    /// counted.
    pub fn count_cached(&self, files: &Dict<CacheFile>) -> (total: Option<usize>)
        ensures
            match total {
                Some(n) => n == batches_len(loaded_batches(self@, files@)),
                None => batches_len(loaded_batches(self@, files@)) > usize::MAX,
            },
    {
        let mut total: usize = 0;
        if let Some(dir) = &self.cache_dir {
            let n = self.config.projects.len();
            let ghost projects = self.config.projects.rows();
            let ghost all = disk_batches(projects, dir@, files@);
            let mut i: usize = 0;
            while i < n
                invariant
                    i <= n == projects.len(),
                    projects == self.config.projects.rows(),
                    all == disk_batches(projects, dir@, files@),
                    all == loaded_batches(self@, files@),
                    total == batches_len(disk_batches(projects.take(i as int), dir@, files@)),
                decreases n - i,
            {
                let name = self.config.projects.key_at(i);
                let path = path_in_cache(dir.as_str(), slugify(name.as_str()).as_str());
                let ghost before = disk_batches(projects.take(i as int), dir@, files@);
                proof {
                    assert(projects.take(i + 1).drop_last() == projects.take(i as int));
                }
                if let Some(CacheFile::Tickets(tickets)) = files.get(path.as_str()) {
                    proof {
                        let batch = (name@, tickets.deep_view());
                        assert(disk_batches(projects.take(i + 1), dir@, files@) == before.push(
                            batch,
                        ));
                        assert(before.push(batch).drop_last() == before);
                        lemma_disk_batches_grow(projects, dir@, files@, i + 1);
                        assert(projects.take(projects.len() as int) == projects);
                    }
                    match total.checked_add(tickets.len()) {
                        Some(sum) => {
                            total = sum;
                        },
                        None => {
                            return None;
                        },
                    }
                }
                i = i + 1;
            }
            assert(projects.take(projects.len() as int) == projects);
        }
        Some(total)
    }

    /// Loads the tickets from the files of the disk cache, given what each of those that can be
    /// read was found to hold. Returns the number of tickets loaded.
    pub fn load_from_disk(&mut self, files: &Dict<CacheFile>) -> (total: usize)
        requires
            batches_len(loaded_batches(old(self)@, files@)) <= usize::MAX,
        ensures
            total == batches_len(loaded_batches(old(self)@, files@)),
            final(self)@ == (CacheView { held: loaded(old(self)@, files@), ..old(self)@ }),
    {
        let mut held = Holdings::new();
        let mut total: usize = 0;
        let ghost projects = self.config.projects.rows();
        match &self.cache_dir {
            Some(dir) => {
                let n = self.config.projects.len();
                let ghost all = disk_batches(projects, dir@, files@);
                let mut i: usize = 0;
                while i < n
                    invariant
                        i <= n == projects.len(),
                        projects == self.config.projects.rows(),
                        all == disk_batches(projects, dir@, files@),
                        batches_len(all) <= usize::MAX,
                        held@ == filed_all(
                            nothing_held(),
                            disk_batches(projects.take(i as int), dir@, files@),
                        ),
                        total == batches_len(disk_batches(projects.take(i as int), dir@, files@)),
                    decreases n - i,
                {
                    let name = self.config.projects.key_at(i);
                    let path = path_in_cache(dir.as_str(), slugify(name.as_str()).as_str());
                    let ghost before = disk_batches(projects.take(i as int), dir@, files@);
                    proof {
                        assert(projects.take(i + 1).drop_last() == projects.take(i as int));
                    }
                    if let Some(CacheFile::Tickets(tickets)) = files.get(path.as_str()) {
                        proof {
                            let batch = (name@, tickets.deep_view());
                            assert(disk_batches(projects.take(i + 1), dir@, files@)
                                == before.push(batch));
                            assert(before.push(batch).drop_last() == before);
                            lemma_disk_batches_grow(projects, dir@, files@, i + 1);
                            assert(projects.take(projects.len() as int) == projects);
                        }
                        file_tickets(&mut held, name, tickets);
                        total = total + tickets.len();
                    }
                    i = i + 1;
                }
                assert(projects.take(projects.len() as int) == projects);
            },
            None => {
                return 0;
            },
        }
        proof {
            law_filing_keeps_order(nothing_held(), loaded_batches(old(self)@, files@));
            law_filed_tickets_count(nothing_held(), loaded_batches(old(self)@, files@));
            assert(tree_count(nothing_held().tree) == 0);
        }
        self.held = held.publish();
        total
    }
}

/// The number of tickets that a refresh starts from.
pub open spec fn kept_count(cache: CacheView, project: Option<Seq<char>>) -> nat {
    if project is Some {
        tree_count(cache.held.tree)
    } else {
        0
    }
}

/// Whether the tickets of a refresh can be counted together with those that stay.
pub open spec fn room_for(
    cache: CacheView,
    project: Option<Seq<char>>,
    pages: Map<Seq<char>, Seq<Json>>,
) -> bool {
    kept_count(cache, project) + batches_len(page_batches(cache.projects, project, pages))
        <= usize::MAX
}

impl NotionCache {
    /// The projects to ask the API for, each with the database that holds its tickets: the named
    /// project, or all projects where none is named.
    pub fn projects_to_refresh(&self, project: Option<&str>) -> (requests: Vec<(String, String)>)
        ensures
            pairs_of(requests@) == refresh_requests(self@.projects, optional_text(project)),
            distinct_keys(self@.projects),
    {
        let mut requests: Vec<(String, String)> = Vec::new();
        let n = self.config.projects.len();
        let ghost projects = self.config.projects.rows();
        let ghost picks = optional_text(project);
        let mut i: usize = 0;
        assert(pairs_of(requests@) == refresh_requests(projects.take(0), picks));
        while i < n
            invariant
                i <= n == projects.len(),
                projects == self.config.projects.rows(),
                picks == optional_text(project),
                pairs_of(requests@) == refresh_requests(projects.take(i as int), picks),
            decreases n - i,
        {
            assert(projects.take(i + 1).drop_last() == projects.take(i as int));
            let name = self.config.projects.key_at(i);
            if is_picked(name.as_str(), project) {
                let ghost so_far = pairs_of(requests@);
                let database_id = self.config.projects.value_at(i).database_id.clone();
                requests.push((name.clone(), database_id));
                assert(pairs_of(requests@) == so_far.push((name@, database_id@)));
            }
            i = i + 1;
        }
        assert(projects.take(projects.len() as int) == projects);
        requests
    }

    /// Whether the tickets of a refresh can be counted together with those that stay.
    pub fn has_room(&self, project: Option<&str>, pages: &Dict<Vec<Json>>) -> (fits: bool)
        ensures
            fits == room_for(self@, optional_text(project), pages@),
            fits ==> tree_count(refreshed(self@, optional_text(project), pages@).tree) <= usize::MAX,
    {
        proof {
            use_type_invariant(self);
        }
        let mut total: usize = 0;
        if project.is_some() {
            total = count_tree(&self.held.tree);
        }
        let ghost kept = kept_count(self@, optional_text(project));
        let n = self.config.projects.len();
        let ghost projects = self.config.projects.rows();
        let ghost picks = optional_text(project);
        let mut i: usize = 0;
        while i < n
            invariant
                i <= n == projects.len(),
                projects == self.config.projects.rows(),
                projects == self@.projects,
                picks == optional_text(project),
                kept == kept_count(self@, picks),
                total == kept + batches_len(
                    page_batches(projects.take(i as int), picks, pages@),
                ),
            decreases n - i,
        {
            let name = self.config.projects.key_at(i);
            let ghost before = page_batches(projects.take(i as int), picks, pages@);
            assert(projects.take(i + 1).drop_last() == projects.take(i as int));
            if is_picked(name.as_str(), project) {
                if let Some(list) = pages.get(name.as_str()) {
                    assert(list.deep_view() == list@);
                    proof {
                        let batch = (name@, tickets_of_pages(list@));
                        assert(before.push(batch).drop_last() == before);
                        lemma_page_batches_grow(projects, picks, pages@, i + 1);
                    }
                    match total.checked_add(list.len()) {
                        Some(sum) => {
                            total = sum;
                        },
                        None => {
                            return false;
                        },
                    }
                }
            }
            i = i + 1;
        }
        proof {
            assert(projects.take(projects.len() as int) == projects);
            let base = if picks is Some {
                self@.held
            } else {
                nothing_held()
            };
            assert(tree_count(nothing_held().tree) == 0);
            law_filed_tickets_count(base, page_batches(projects, picks, pages@));
        }
        true
    }

    /// Takes in the pages that the API gave for the projects to refresh, and rebuilds the tree.
    /// With a project named, only that project is renewed; otherwise all are, and a project of
    /// which no pages came in is dropped. Returns the number of tickets across all projects in the
    /// tree, and the files to write.
    pub fn refresh(&mut self, project: Option<&str>, pages: &Dict<Vec<Json>>) -> (done: Refreshed)
        requires
            tree_count(refreshed(old(self)@, optional_text(project), pages@).tree) <= usize::MAX,
        ensures
            final(self)@ == (CacheView {
                held: refreshed(old(self)@, optional_text(project), pages@),
                ..old(self)@
            }),
            done.total == tree_count(final(self)@.held.tree),
            done.files@ == saved_files(
                old(self)@.cache_dir,
                page_batches(old(self)@.projects, optional_text(project), pages@),
            ),
    {
        proof {
            use_type_invariant(&*self);
        }
        let mut held = Holdings::new();
        let ghost before = self@;
        let ghost picks = optional_text(project);
        let ghost base = if picks is Some {
            before.held
        } else {
            nothing_held()
        };
        if project.is_some() {
            held = self.held.copy();
        }
        let mut files: Dict<Vec<Ticket>> = Dict::new();
        let n = self.config.projects.len();
        let ghost projects = self.config.projects.rows();
        let mut i: usize = 0;
        while i < n
            invariant
                i <= n == projects.len(),
                projects == self.config.projects.rows(),
                picks == optional_text(project),
                self@.cache_dir == before.cache_dir,
                held@ == filed_all(base, page_batches(projects.take(i as int), picks, pages@)),
                files@ == saved_files(
                    before.cache_dir,
                    page_batches(projects.take(i as int), picks, pages@),
                ),
            decreases n - i,
        {
            let name = self.config.projects.key_at(i);
            let ghost earlier = page_batches(projects.take(i as int), picks, pages@);
            assert(projects.take(i + 1).drop_last() == projects.take(i as int));
            if is_picked(name.as_str(), project) {
                if let Some(list) = pages.get(name.as_str()) {
                    assert(list.deep_view() == list@);
                    let tickets = read_tickets(list);
                    proof {
                        let batch = (name@, tickets.deep_view());
                        assert(page_batches(projects.take(i + 1), picks, pages@)
                            == earlier.push(batch));
                        assert(earlier.push(batch).drop_last() == earlier);
                    }
                    file_tickets(&mut held, name, &tickets);
                    let slug = slugify(name.as_str());
                    self.save_tickets_to_disk(&mut files, slug.as_str(), tickets);
                }
            }
            i = i + 1;
        }
        proof {
            assert(projects.take(projects.len() as int) == projects);
            law_filing_keeps_order(base, page_batches(projects, picks, pages@));
        }
        let total = count_tree(&held.tree);
        self.held = held.publish();
        Refreshed { total, files }
    }

    /// Enters the tickets of a project among the files to write, where there is a disk cache.
    fn save_tickets_to_disk(
        &self,
        files: &mut Dict<Vec<Ticket>>,
        proj_slug: &str,
        tickets: Vec<Ticket>,
    )
        ensures
            final(files)@ == match self@.cache_dir {
                Some(dir) => old(files)@.insert(
                    cache_path(dir, proj_slug@),
                    tickets.deep_view(),
                ),
                None => old(files)@,
            },
    {
        if let Some(dir) = &self.cache_dir {
            files.insert(path_in_cache(dir.as_str(), proj_slug), tickets);
        }
    }
}

/// Some pairs of strings as pairs of texts.
pub open spec fn pairs_of(pairs: Seq<(String, String)>) -> Seq<(Seq<char>, Seq<char>)> {
    pairs.map_values(|pair: (String, String)| (pair.0@, pair.1@))
}

/// Whether a project is to be refreshed.
fn is_picked(name: &str, project: Option<&str>) -> (r: bool)
    ensures
        r == picked(name@, optional_text(project)),
{
    match project {
        Some(p) => same_text(p, name),
        None => true,
    }
}

/// The tickets of the first projects are no more than those of all.
proof fn lemma_page_batches_grow(
    projects: Seq<(Seq<char>, ProjectConfigView)>,
    project: Option<Seq<char>>,
    pages: Map<Seq<char>, Seq<Json>>,
    k: int,
)
    requires
        0 <= k <= projects.len(),
    ensures
        batches_len(page_batches(projects.take(k), project, pages)) <= batches_len(
            page_batches(projects, project, pages),
        ),
    decreases projects.len() - k,
{
    if k < projects.len() {
        lemma_page_batches_grow(projects, project, pages, k + 1);
        let more = projects.take(k + 1);
        assert(more.drop_last() == projects.take(k));
        let before = page_batches(projects.take(k), project, pages);
        let name = projects[k].0;
        let batch = (name, tickets_of_pages(pages[name]));
        assert(before.push(batch).drop_last() == before);
    } else {
        assert(projects.take(k) == projects);
    }
}

/// The tickets of the first projects are no more than those of all.
proof fn lemma_disk_batches_grow(
    projects: Seq<(Seq<char>, ProjectConfigView)>,
    dir: Seq<char>,
    files: Map<Seq<char>, Option<Seq<TicketView>>>,
    k: int,
)
    requires
        0 <= k <= projects.len(),
    ensures
        batches_len(disk_batches(projects.take(k), dir, files)) <= batches_len(
            disk_batches(projects, dir, files),
        ),
    decreases projects.len() - k,
{
    if k < projects.len() {
        lemma_disk_batches_grow(projects, dir, files, k + 1);
        let more = projects.take(k + 1);
        assert(more.drop_last() == projects.take(k));
        let before = disk_batches(projects.take(k), dir, files);
        let name = projects[k].0;
        if let Some(tickets) = cached_tickets(dir, name, files) {
            assert(before.push((name, tickets)).drop_last() == before);
        }
    } else {
        assert(projects.take(k) == projects);
    }
}

// ---------------------------------------------------------------------------
// Single projects and tickets
// ---------------------------------------------------------------------------

/// The tree of a cache after a ticket got its description.
pub open spec fn described(
    cache: CacheView,
    project: Seq<char>,
    assignee: Seq<char>,
    status: Seq<char>,
    file: Seq<char>,
    page_id: Seq<char>,
    description: Seq<char>,
) -> CacheView {
    CacheView {
        held: HoldingsView {
            tree: with_description(
                cache.held.tree,
                project,
                assignee,
                status,
                file,
                page_id,
                description,
            ),
            ..cache.held
        },
        ..cache
    }
}

/// A description keeps what holds of everything held.
proof fn lemma_description_keeps_order(
    held: HoldingsView,
    project: Seq<char>,
    assignee: Seq<char>,
    status: Seq<char>,
    file: Seq<char>,
    page_id: Seq<char>,
    description: Seq<char>,
)
    requires
        in_order(held),
    ensures
        ({
            let tree = with_description(
                held.tree,
                project,
                assignee,
                status,
                file,
                page_id,
                description,
            );
            in_order(HoldingsView { tree, ..held }) && tree_count(tree) == tree_count(held.tree)
        }),
{
    let tree = with_description(
        held.tree,
        project,
        assignee,
        status,
        file,
        page_id,
        description,
    );
    let after = HoldingsView { tree, ..held };
    law_description_changes_nothing_else(
        held.tree,
        project,
        assignee,
        status,
        file,
        page_id,
        description,
    );
    assert forall|p: Seq<char>| #[trigger]
        after.tree.contains_key(p) implies after.slug_map.contains_key(p) && project_is_named(
        after.tree[p],
        after.slug_map,
    ) by {
        assert(held.tree.contains_key(p));
        assert forall|a: Seq<char>| #[trigger]
            after.tree[p].contains_key(a) implies after.slug_map.contains_key(a) by {
            assert(held.tree[p].contains_key(a));
        }
        assert forall|a: Seq<char>, s: Seq<char>|
            after.tree[p].contains_key(a) && #[trigger] after.tree[p][a].contains_key(
                s,
            ) implies after.slug_map.contains_key(s) by {
            assert(held.tree[p].contains_key(a));
            assert(held.tree[p][a].contains_key(s));
        }
    }
}

impl NotionCache {
    /// The tree of tickets, as it is now. Whoever holds it keeps it as it is, whatever the cache
    /// takes in later.
    pub fn get_tree(&self) -> (tree: Arc<Tree>)
        ensures
            tree@ == self@.held.tree,
            in_order(self@.held),
    {
        proof {
            use_type_invariant(self);
        }
        share(&self.held.tree)
    }

    /// The display names that the slugs stand for, as they are now.
    pub fn get_slug_map(&self) -> (slug_map: Arc<Dict<String>>)
        ensures
            slug_map@ == self@.held.slug_map,
            in_order(self@.held),
    {
        proof {
            use_type_invariant(self);
        }
        share(&self.held.slug_map)
    }

    /// The client that the API is asked with.
    pub fn get_client(&self) -> (client: &NotionClient)
        ensures
            client.token_text() == self@.token,
    {
        &self.client
    }

    /// Begins to fetch the description of a single page.
    pub fn fetch_description(&self, page_id: &str) -> (query: BlocksQuery)
        ensures
            query.url@ == children_url(page_id@),
            query.texts() == Seq::<Seq<char>>::empty(),
            query.paging() == (Paging { cursor: None, done: false }),
    {
        self.client.get_page_blocks(page_id)
    }

    /// The file that is to hold the tickets of a project, and the tickets. There is none without a
    /// disk cache, or where the tree has no such project.
    pub fn save_project_cache(&self, proj_slug: &str) -> (saved: Option<(String, Vec<Ticket>)>)
        ensures
            saved is Some <==> self@.cache_dir is Some && self@.held.tree.contains_key(proj_slug@),
            saved matches Some((path, tickets)) ==> path@ == cache_path(
                self@.cache_dir->0,
                proj_slug@,
            ) && project_tree(tickets.deep_view()) == self@.held.tree[proj_slug@],
    {
        proof {
            use_type_invariant(self);
        }
        match (&self.cache_dir, self.held.tree.get(proj_slug)) {
            (Some(dir), Some(project)) => Some(
                (path_in_cache(dir.as_str(), proj_slug), collect_project(project)),
            ),
            _ => None,
        }
    }

    /// The name by which a project's directory is refreshed.
    pub fn project_name(&self, slug: &str) -> (name: String)
        ensures
            name@ == project_name_of(self@, slug@),
    {
        let n = self.config.projects.len();
        let ghost projects = self.config.projects.rows();
        proof {
            lemma_rows_map(projects);
        }
        if let Some(name) = self.held.slug_map.get(slug) {
            if self.config.projects.contains_key(name.as_str()) {
                return name.clone();
            }
        }
        let mut i: usize = n;
        assert(projects.take(n as int) == projects);
        while i > 0
            invariant
                i <= n == projects.len(),
                projects == self.config.projects.rows(),
                projects == self@.projects,
                !(self@.held.slug_map.contains_key(slug@) && is_configured(
                    projects,
                    self@.held.slug_map[slug@],
                )),
                configured_name(projects, slug@) == configured_name(
                    projects.take(i as int),
                    slug@,
                ),
            decreases i,
        {
            assert(projects.take(i as int).drop_last() == projects.take(i - 1));
            i = i - 1;
            let name = self.config.projects.key_at(i);
            if same_text(slugify(name.as_str()).as_str(), slug) {
                return name.clone();
            }
        }
        match self.held.slug_map.get(slug) {
            Some(name) => name.clone(),
            None => slug.to_string(),
        }
    }

    /// Keeps the description of a ticket, where the ticket at the path is still the one of the
    /// given page.
    pub fn store_description(
        &mut self,
        project: &str,
        assignee: &str,
        status: &str,
        file: &str,
        page_id: &str,
        description: String,
    )
        ensures
            final(self)@ == described(
                old(self)@,
                project@,
                assignee@,
                status@,
                file@,
                page_id@,
                description@,
            ),
    {
        proof {
            use_type_invariant(&*self);
            lemma_description_keeps_order(
                self.held@,
                project@,
                assignee@,
                status@,
                file@,
                page_id@,
                description@,
            );
        }
        let mut held = self.held.copy();
        describe_ticket(&mut held.tree, project, assignee, status, file, page_id, description);
        self.held = held.publish();
    }

    /// What is to be asked of the API before the file system is mounted, given the number of
    /// tickets that were loaded from the disk cache: everything where nothing was loaded, and
    /// otherwise the projects whose file is corrupt.
    pub fn missing_projects(&self, files: &Dict<CacheFile>, count: usize) -> (missing: Option<
        Vec<String>,
    >)
        ensures
            missing is None <==> count == 0,
            missing matches Some(names) ==> texts_of(names@) == match self@.cache_dir {
                Some(dir) => corrupt_names(self@.projects, dir, files@),
                None => Seq::empty(),
            },
    {
        if count == 0 {
            return None;
        }
        let mut names: Vec<String> = Vec::new();
        assert(texts_of(names@) == Seq::<Seq<char>>::empty());
        if let Some(dir) = &self.cache_dir {
            let n = self.config.projects.len();
            let ghost projects = self.config.projects.rows();
            let mut i: usize = 0;
            while i < n
                invariant
                    i <= n == projects.len(),
                    projects == self.config.projects.rows(),
                    texts_of(names@) == corrupt_names(projects.take(i as int), dir@, files@),
                decreases n - i,
            {
                let name = self.config.projects.key_at(i);
                let path = path_in_cache(dir.as_str(), slugify(name.as_str()).as_str());
                assert(projects.take(i + 1).drop_last() == projects.take(i as int));
                if let Some(CacheFile::Corrupt) = files.get(path.as_str()) {
                    let ghost so_far = texts_of(names@);
                    names.push(name.clone());
                    assert(texts_of(names@) == so_far.push(name@));
                }
                i = i + 1;
            }
            assert(projects.take(projects.len() as int) == projects);
        }
        Some(names)
    }
}

// ---------------------------------------------------------------------------
// Loads and refreshes whose tickets are counted first
// ---------------------------------------------------------------------------

/// The trees before and after a change, both whole. Whoever reads the tree before goes on with it
/// undisturbed.
pub struct Replaced {
    pub previous: Arc<Tree>,
    pub current: Arc<Tree>,
}

impl NotionCache {
    /// Loads the tickets from the files of the disk cache, unless there are too many to be counted;
    /// then nothing changes. The tree that was taken before the load is still as it was after it,
    /// and the one that is taken after it is the new one.
    pub fn reload(&mut self, files: &Dict<CacheFile>) -> (outcome: Option<(usize, Replaced)>)
        ensures
            outcome is Some <==> batches_len(loaded_batches(old(self)@, files@)) <= usize::MAX,
            match outcome {
                Some((total, trees)) => {
                    &&& total == batches_len(loaded_batches(old(self)@, files@))
                    &&& final(self)@ == (CacheView {
                        held: loaded(old(self)@, files@),
                        ..old(self)@
                    })
                    &&& trees.previous@ == old(self)@.held.tree
                    &&& trees.current@ == loaded(old(self)@, files@).tree
                },
                None => final(self)@ == old(self)@,
            },
    {
        if self.count_cached(files).is_none() {
            return None;
        }
        let previous = self.get_tree();
        let total = self.load_from_disk(files);
        let current = self.get_tree();
        Some((total, Replaced { previous, current }))
    }

    /// Refreshes a project, or all projects, unless there are too many tickets to be counted; then
    /// nothing changes. The tree that was taken before the refresh is still as it was after it, and
    /// the one that is taken after it is the new one.
    pub fn renew(&mut self, project: Option<&str>, pages: &Dict<Vec<Json>>) -> (outcome: Option<
        (Refreshed, Replaced),
    >)
        ensures
            outcome is Some <==> room_for(old(self)@, optional_text(project), pages@),
            match outcome {
                Some((done, trees)) => {
                    let held = refreshed(old(self)@, optional_text(project), pages@);
                    &&& final(self)@ == (CacheView { held, ..old(self)@ })
                    &&& done.total == tree_count(held.tree)
                    &&& done.files@ == saved_files(
                        old(self)@.cache_dir,
                        page_batches(old(self)@.projects, optional_text(project), pages@),
                    )
                    &&& trees.previous@ == old(self)@.held.tree
                    &&& trees.current@ == held.tree
                },
                None => final(self)@ == old(self)@,
            },
    {
        if !self.has_room(project, pages) {
            return None;
        }
        let previous = self.get_tree();
        let done = self.refresh(project, pages);
        let current = self.get_tree();
        Some((done, Replaced { previous, current }))
    }
}

// ---------------------------------------------------------------------------
// Laws
// ---------------------------------------------------------------------------

/// The files that are written, as they are found when they are read again.
pub open spec fn read_again(
    files: Map<Seq<char>, Seq<TicketView>>,
) -> Map<Seq<char>, Option<Seq<TicketView>>> {
    Map::new(|path: Seq<char>| files.contains_key(path), |path: Seq<char>| Some(files[path]))
}

/// Whether no two configured projects share a slug.
pub open spec fn distinct_project_slugs(projects: Seq<(Seq<char>, ProjectConfigView)>) -> bool {
    forall|i: int, j: int|
        0 <= i < projects.len() && 0 <= j < projects.len() && i != j ==> slug_of(
            (#[trigger] projects[i]).0,
        ) != slug_of((#[trigger] projects[j]).0)
}

/// Projects with different slugs have different files in the disk cache.
proof fn lemma_cache_path_injective(dir: Seq<char>, a: Seq<char>, b: Seq<char>)
    requires
        is_slug(a),
        is_slug(b),
        cache_path(dir, a) == cache_path(dir, b),
    ensures
        a == b,
{
    reveal_strlit(".json");
    let x = a + ".json"@;
    let y = b + ".json"@;
    let path = cache_path(dir, a);
    let head: Seq<char> = if dir.len() == 0 || dir.last() == '/' {
        dir
    } else {
        dir.push('/')
    };
    assert(x[0] != '/') by {
        if a.len() > 0 {
            assert(slug_char(a[0]));
        }
    }
    assert(y[0] != '/') by {
        if b.len() > 0 {
            assert(slug_char(b[0]));
        }
    }
    assert(path == head + x);
    assert(path == head + y);
    assert(x == path.skip(head.len() as int));
    assert(y == path.skip(head.len() as int));
    assert(a == x.take(x.len() - 5));
    assert(b == y.take(y.len() - 5));
}

/// What the files of the first projects hold.
proof fn lemma_saved_files(
    projects: Seq<(Seq<char>, ProjectConfigView)>,
    dir: Seq<char>,
    pages: Map<Seq<char>, Seq<Json>>,
    k: int,
    i: int,
)
    requires
        distinct_project_slugs(projects),
        0 <= k <= projects.len(),
        0 <= i < projects.len(),
    ensures
        ({
            let files = saved_files(Some(dir), page_batches(projects.take(k), None, pages));
            let name = projects[i].0;
            let path = cache_path(dir, slug_of(name));
            &&& files.contains_key(path) == (i < k && pages.contains_key(name))
            &&& files.contains_key(path) ==> files[path] == tickets_of_pages(pages[name])
        }),
    decreases k,
{
    if k > 0 {
        lemma_saved_files(projects, dir, pages, k - 1, i);
        let last = projects[k - 1].0;
        assert(projects.take(k).drop_last() == projects.take(k - 1));
        let earlier = page_batches(projects.take(k - 1), None, pages);
        let batch = (last, tickets_of_pages(pages[last]));
        assert(earlier.push(batch).drop_last() == earlier);
        law_collapse_is_slug(base_letters(last));
        law_collapse_is_slug(base_letters(projects[i].0));
        if i != k - 1 && cache_path(dir, slug_of(last)) == cache_path(
            dir,
            slug_of(projects[i].0),
        ) {
            lemma_cache_path_injective(dir, slug_of(last), slug_of(projects[i].0));
            assert(slug_of(projects[k - 1].0) != slug_of(projects[i].0));
        }
    }
}

/// What a full refresh saves, a later start loads: the same tree and the same display names, where
/// no two configured projects share a slug.
pub proof fn law_refresh_then_load(
    cache: CacheView,
    later: CacheView,
    pages: Map<Seq<char>, Seq<Json>>,
)
    requires
        cache.cache_dir is Some,
        distinct_project_slugs(cache.projects),
        later.projects == cache.projects,
        later.cache_dir == cache.cache_dir,
    ensures
        loaded(
            later,
            read_again(
                saved_files(cache.cache_dir, page_batches(cache.projects, None, pages)),
            ),
        ) == refreshed(cache, None, pages),
{
    let projects = cache.projects;
    let dir = cache.cache_dir->0;
    let files = read_again(saved_files(Some(dir), page_batches(projects, None, pages)));
    lemma_load_finds_what_was_saved(projects, dir, pages, projects.len() as int);
    assert(projects.take(projects.len() as int) == projects);
}

proof fn lemma_load_finds_what_was_saved(
    projects: Seq<(Seq<char>, ProjectConfigView)>,
    dir: Seq<char>,
    pages: Map<Seq<char>, Seq<Json>>,
    k: int,
)
    requires
        distinct_project_slugs(projects),
        0 <= k <= projects.len(),
    ensures
        disk_batches(
            projects.take(k),
            dir,
            read_again(saved_files(Some(dir), page_batches(projects, None, pages))),
        ) == page_batches(projects.take(k), None, pages),
    decreases k,
{
    if k > 0 {
        lemma_load_finds_what_was_saved(projects, dir, pages, k - 1);
        assert(projects.take(k).drop_last() == projects.take(k - 1));
        lemma_saved_files(projects, dir, pages, projects.len() as int, k - 1);
        assert(projects.take(projects.len() as int) == projects);
    }
}

/// The directory of a configured project, after its file was read among those of the first
/// projects.
proof fn lemma_loaded_project(
    projects: Seq<(Seq<char>, ProjectConfigView)>,
    dir: Seq<char>,
    files: Map<Seq<char>, Option<Seq<TicketView>>>,
    slug: Seq<char>,
    i: int,
)
    requires
        0 <= i < projects.len(),
        slug_of(projects[i].0) == slug,
        files.contains_key(cache_path(dir, slug)),
        files[cache_path(dir, slug)] is Some,
    ensures
        ({
            let tree = filed_all(nothing_held(), disk_batches(projects, dir, files)).tree;
            tree.contains_key(slug) && tree[slug] == project_tree(
                files[cache_path(dir, slug)]->0,
            )
        }),
    decreases projects.len(),
{
    let rest = projects.drop_last();
    let name = projects.last().0;
    let earlier = disk_batches(rest, dir, files);
    if let Some(tickets) = cached_tickets(dir, name, files) {
        assert(earlier.push((name, tickets)).drop_last() == earlier);
    }
    if slug_of(name) != slug {
        lemma_loaded_project(rest, dir, files, slug, i);
    }
}

/// A load puts into the directory of each configured project the tree of the tickets that its file
/// in the disk cache holds.
pub proof fn law_load_reads_each_project(
    later: CacheView,
    files: Map<Seq<char>, Option<Seq<TicketView>>>,
    name: Seq<char>,
    tickets: Seq<TicketView>,
)
    requires
        later.cache_dir is Some,
        is_configured(later.projects, name),
        files.contains_key(cache_path(later.cache_dir->0, slug_of(name))),
        files[cache_path(later.cache_dir->0, slug_of(name))] == Some(tickets),
    ensures
        loaded(later, files).tree.contains_key(slug_of(name)),
        loaded(later, files).tree[slug_of(name)] == project_tree(tickets),
{
    let i = choose|i: int|
        0 <= i < later.projects.len() && (#[trigger] later.projects[i]).0 == name;
    lemma_loaded_project(later.projects, later.cache_dir->0, files, slug_of(name), i);
}

/// A project that is saved by itself loads as it was, whatever the other files hold: a later start
/// that finds the saved tickets in the project's file has the same directory for the project.
pub proof fn law_saved_project_loads_as_it_was(
    cache: CacheView,
    later: CacheView,
    files: Map<Seq<char>, Option<Seq<TicketView>>>,
    name: Seq<char>,
    tickets: Seq<TicketView>,
)
    requires
        project_tree(tickets) == cache.held.tree[slug_of(name)],
        later.cache_dir is Some,
        is_configured(later.projects, name),
        files.contains_key(cache_path(later.cache_dir->0, slug_of(name))),
        files[cache_path(later.cache_dir->0, slug_of(name))] == Some(tickets),
    ensures
        loaded(later, files).tree.contains_key(slug_of(name)),
        loaded(later, files).tree[slug_of(name)] == cache.held.tree[slug_of(name)],
{
    law_load_reads_each_project(later, files, name, tickets);
}

/// The configured project of a name, where its pages came in, is all that a refresh of that name
/// files.
proof fn lemma_page_batches_of_one(
    projects: Seq<(Seq<char>, ProjectConfigView)>,
    name: Seq<char>,
    pages: Map<Seq<char>, Seq<Json>>,
)
    requires
        distinct_keys(projects),
    ensures
        page_batches(projects, Some(name), pages) == if rows_map(projects).contains_key(name)
            && pages.contains_key(name) {
            seq![(name, tickets_of_pages(pages[name]))]
        } else {
            Seq::empty()
        },
        refresh_requests(projects, Some(name)) == if rows_map(projects).contains_key(name) {
            seq![(name, rows_map(projects)[name].database_id)]
        } else {
            Seq::empty()
        },
    decreases projects.len(),
{
    if projects.len() > 0 {
        let rest = projects.drop_last();
        lemma_page_batches_of_one(rest, name, pages);
        lemma_rows_map(rest);
        if projects.last().0 == name && rows_map(rest).contains_key(name) {
            let i = choose|i: int| 0 <= i < rest.len() && (#[trigger] rest[i]).0 == name;
            assert(projects[i].0 == projects[projects.len() - 1].0);
        }
        let none: Seq<(Seq<char>, Seq<TicketView>)> = Seq::empty();
        let batch = (name, tickets_of_pages(pages[name]));
        assert(none.push(batch) == seq![batch]);
        let no_requests: Seq<(Seq<char>, Seq<char>)> = Seq::empty();
        let request = (name, projects.last().1.database_id);
        assert(no_requests.push(request) == seq![request]);
    }
}

/// A refresh of one project renews that project and leaves every other as it was. Where the name
/// is not configured, or no pages came in, nothing changes.
pub proof fn law_refresh_of_one_project(
    cache: CacheView,
    name: Seq<char>,
    pages: Map<Seq<char>, Seq<Json>>,
)
    requires
        distinct_keys(cache.projects),
    ensures
        ({
            let after = refreshed(cache, Some(name), pages);
            if rows_map(cache.projects).contains_key(name) && pages.contains_key(name) {
                after.tree == cache.held.tree.insert(
                    slug_of(name),
                    project_tree(tickets_of_pages(pages[name])),
                )
            } else {
                after == cache.held
            }
        }),
{
    lemma_page_batches_of_one(cache.projects, name, pages);
    let batches = page_batches(cache.projects, Some(name), pages);
    if batches.len() > 0 {
        assert(batches.drop_last() == Seq::<(Seq<char>, Seq<TicketView>)>::empty());
        assert(filed_all(cache.held, batches.drop_last()) == cache.held);
    }
}

/// Reading the `.refresh` file of a configured project asks the API for a project of that
/// directory, and for nothing else.
pub proof fn law_directory_is_refreshed_from_its_project(cache: CacheView, name: Seq<char>)
    requires
        distinct_keys(cache.projects),
        slugs_lead_back(cache.held.slug_map),
        is_configured(cache.projects, name),
    ensures
        ({
            let asked = project_name_of(cache, slug_of(name));
            &&& slug_of(asked) == slug_of(name)
            &&& is_configured(cache.projects, asked)
            &&& refresh_requests(cache.projects, Some(asked)) == seq![
                (asked, rows_map(cache.projects)[asked].database_id),
            ]
        }),
{
    let projects = cache.projects;
    lemma_rows_map(projects);
    let i = choose|i: int| 0 <= i < projects.len() && (#[trigger] projects[i]).0 == name;
    lemma_configured_name(projects, slug_of(name), i);
    let asked = project_name_of(cache, slug_of(name));
    let j = choose|j: int| 0 <= j < projects.len() && (#[trigger] projects[j]).0 == asked;
    assert(rows_map(projects).contains_key(projects[j].0));
    lemma_page_batches_of_one(projects, asked, Map::empty());
}

proof fn lemma_configured_name(
    projects: Seq<(Seq<char>, ProjectConfigView)>,
    slug: Seq<char>,
    i: int,
)
    requires
        0 <= i < projects.len(),
        slug_of(projects[i].0) == slug,
    ensures
        configured_name(projects, slug) is Some,
        slug_of(configured_name(projects, slug)->0) == slug,
        exists|j: int|
            0 <= j < projects.len() && (#[trigger] projects[j]).0 == configured_name(
                projects,
                slug,
            )->0,
    decreases projects.len(),
{
    let last = projects.len() - 1;
    if slug_of(projects.last().0) == slug {
        assert(projects[last].0 == configured_name(projects, slug)->0);
    } else {
        let rest = projects.drop_last();
        lemma_configured_name(rest, slug, i);
        let j = choose|j: int|
            0 <= j < rest.len() && (#[trigger] rest[j]).0 == configured_name(rest, slug)->0;
        assert(projects[j].0 == configured_name(projects, slug)->0);
    }
}

/// The slugs of some tickets stand over those of the map that they are entered into.
proof fn lemma_with_slugs_over(slugs: Map<Seq<char>, Seq<char>>, tickets: Seq<TicketView>)
    ensures
        with_slugs(slugs, tickets) == slugs.union_prefer_right(
            with_slugs(Map::empty(), tickets),
        ),
    decreases tickets.len(),
{
    if tickets.len() > 0 {
        lemma_with_slugs_over(slugs, tickets.drop_last());
    }
    assert(with_slugs(slugs, tickets) =~= slugs.union_prefer_right(
        with_slugs(Map::empty(), tickets),
    ));
}

/// A second refresh to which the API gives the same pages changes nothing.
pub proof fn law_refresh_is_idempotent(
    cache: CacheView,
    project: Option<Seq<char>>,
    pages: Map<Seq<char>, Seq<Json>>,
)
    requires
        distinct_keys(cache.projects),
    ensures
        refreshed(
            CacheView { held: refreshed(cache, project, pages), ..cache },
            project,
            pages,
        ) == refreshed(cache, project, pages),
{
    if let Some(name) = project {
        let after = refreshed(cache, project, pages);
        let batches = page_batches(cache.projects, project, pages);
        lemma_page_batches_of_one(cache.projects, name, pages);
        if batches.len() > 0 {
            let tickets = tickets_of_pages(pages[name]);
            assert(batches.drop_last() == Seq::<(Seq<char>, Seq<TicketView>)>::empty());
            assert(filed_all(cache.held, batches.drop_last()) == cache.held);
            assert(filed_all(after, batches.drop_last()) == after);
            let slug = slug_of(name);
            lemma_with_slugs_over(cache.held.slug_map.insert(slug, name), tickets);
            lemma_with_slugs_over(after.slug_map.insert(slug, name), tickets);
            let again = filed(after, name, tickets);
            assert(again.tree =~= after.tree);
            assert(again.slug_map =~= after.slug_map);
        }
    }
}

// ---------------------------------------------------------------------------
// Laws of filing
// ---------------------------------------------------------------------------

/// Filing one project after others files it on top of them; a single project is put whole into its
/// directory, and its slug stands for its name unless one of its assignees or statuses has it.
pub proof fn law_projects_are_filed_one_by_one(
    held: HoldingsView,
    a: Seq<(Seq<char>, Seq<TicketView>)>,
    b: Seq<(Seq<char>, Seq<TicketView>)>,
    name: Seq<char>,
    tickets: Seq<TicketView>,
)
    ensures
        filed_all(held, a + b) == filed_all(filed_all(held, a), b),
        ({
            let one = filed_all(held, seq![(name, tickets)]);
            &&& one.tree == held.tree.insert(slug_of(name), project_tree(tickets))
            &&& one.slug_map == with_slugs(held.slug_map.insert(slug_of(name), name), tickets)
            &&& !slug_occurs(tickets, slug_of(name)) ==> one.slug_map.contains_key(slug_of(name))
                && one.slug_map[slug_of(name)] == name
        }),
        filed_all(held, Seq::empty()) == held,
        batches_len(a + b) == batches_len(a) + batches_len(b),
        batches_len(seq![(name, tickets)]) == tickets.len(),
    decreases b.len(),
{
    let none: Seq<(Seq<char>, Seq<TicketView>)> = Seq::empty();
    let one = seq![(name, tickets)];
    assert(one.drop_last() == none);
    assert(filed_all(held, none) == held);
    assert(batches_len(none) == 0);
    law_slugs_lead_to_display_names(
        held.slug_map.insert(slug_of(name), name),
        tickets,
        slug_of(name),
    );
    if b.len() == 0 {
        assert(a + b == a);
    } else {
        assert((a + b).drop_last() == a + b.drop_last());
        law_projects_are_filed_one_by_one(held, a, b.drop_last(), name, tickets);
    }
}

/// The file of a project in the disk cache is named after its slug and stands in the cache's
/// directory.
pub proof fn law_cache_file_is_named_after_the_slug(dir: Seq<char>, slug: Seq<char>)
    requires
        is_slug(slug),
    ensures
        dir.len() > 0 && dir.last() != '/' ==> cache_path(dir, slug) == dir + seq!['/'] + slug
            + seq!['.', 'j', 's', 'o', 'n'],
        dir.len() == 0 || dir.last() == '/' ==> cache_path(dir, slug) == dir + slug
            + seq!['.', 'j', 's', 'o', 'n'],
{
    reveal_strlit(".json");
    assert(".json"@ == seq!['.', 'j', 's', 'o', 'n']);
    let file = slug + ".json"@;
    assert(file[0] != '/') by {
        if slug.len() > 0 {
            assert(slug_char(slug[0]));
        }
    }
    if dir.len() > 0 && dir.last() != '/' {
        assert(dir.push('/') + file == dir + seq!['/'] + slug + seq!['.', 'j', 's', 'o', 'n']);
    } else {
        assert(dir + file == dir + slug + seq!['.', 'j', 's', 'o', 'n']);
    }
}

/// A load takes the projects in the order of the configuration, each with all the tickets of its
/// file; a project whose file is not there or corrupt is passed over, and the corrupt ones are
/// known by name.
pub proof fn law_load_takes_every_project(
    a: Seq<(Seq<char>, ProjectConfigView)>,
    b: Seq<(Seq<char>, ProjectConfigView)>,
    dir: Seq<char>,
    files: Map<Seq<char>, Option<Seq<TicketView>>>,
    project: (Seq<char>, ProjectConfigView),
)
    ensures
        disk_batches(a + b, dir, files) == disk_batches(a, dir, files) + disk_batches(
            b,
            dir,
            files,
        ),
        corrupt_names(a + b, dir, files) == corrupt_names(a, dir, files) + corrupt_names(
            b,
            dir,
            files,
        ),
        ({
            let path = cache_path(dir, slug_of(project.0));
            let read = disk_batches(seq![project], dir, files);
            let corrupt = corrupt_names(seq![project], dir, files);
            if !files.contains_key(path) {
                read.len() == 0 && corrupt.len() == 0
            } else {
                match files[path] {
                    Some(tickets) => read == seq![(project.0, tickets)] && corrupt.len() == 0,
                    None => read.len() == 0 && corrupt == seq![project.0],
                }
            }
        }),
        disk_batches(Seq::empty(), dir, files).len() == 0,
        corrupt_names(Seq::empty(), dir, files).len() == 0,
    decreases b.len(),
{
    let none: Seq<(Seq<char>, ProjectConfigView)> = Seq::empty();
    let no_batches: Seq<(Seq<char>, Seq<TicketView>)> = Seq::empty();
    let no_names: Seq<Seq<char>> = Seq::empty();
    let one = seq![project];
    assert(one.drop_last() == none);
    assert(disk_batches(none, dir, files) == no_batches);
    assert(corrupt_names(none, dir, files) == no_names);
    assert(no_names.push(project.0) == seq![project.0]);
    if let Some(tickets) = cached_tickets(dir, project.0, files) {
        assert(no_batches.push((project.0, tickets)) == seq![(project.0, tickets)]);
    }
    if b.len() == 0 {
        assert(a + b == a);
        assert(b == none);
    } else {
        assert((a + b).drop_last() == a + b.drop_last());
        law_load_takes_every_project(a, b.drop_last(), dir, files, project);
        assert(disk_batches(a + b, dir, files) =~= disk_batches(a, dir, files) + disk_batches(
            b,
            dir,
            files,
        ));
        assert(corrupt_names(a + b, dir, files) =~= corrupt_names(a, dir, files) + corrupt_names(
            b,
            dir,
            files,
        ));
    }
}

/// A load goes by what the files hold and not by what was held before, and without a disk cache it
/// changes nothing. What it holds then are configured projects with a file.
pub proof fn law_load_starts_anew(
    cache: CacheView,
    other: CacheView,
    files: Map<Seq<char>, Option<Seq<TicketView>>>,
    slug: Seq<char>,
)
    requires
        other.projects == cache.projects,
        other.cache_dir == cache.cache_dir,
    ensures
        cache.cache_dir is Some ==> loaded(cache, files) == loaded(other, files),
        cache.cache_dir is None ==> loaded(cache, files) == cache.held && loaded_batches(
            cache,
            files,
        ).len() == 0,
        cache.cache_dir is Some ==> loaded_batches(cache, files) == disk_batches(
            cache.projects,
            cache.cache_dir->0,
            files,
        ),
        cache.cache_dir is Some && loaded(cache, files).tree.contains_key(slug) ==> batch_of_slug(
            loaded_batches(cache, files),
            slug,
        ),
{
    if cache.cache_dir is Some {
        law_new_tree_is_whole(nothing_held(), loaded_batches(cache, files), slug);
    }
}

/// A refresh asks for the named project, or for every project in the order of the configuration
/// where none is named, each with its own database; of those it files the ones whose pages came
/// in, each with all its pages.
pub proof fn law_refresh_takes_every_picked_project(
    a: Seq<(Seq<char>, ProjectConfigView)>,
    b: Seq<(Seq<char>, ProjectConfigView)>,
    project: Option<Seq<char>>,
    pages: Map<Seq<char>, Seq<Json>>,
    row: (Seq<char>, ProjectConfigView),
)
    ensures
        refresh_requests(a + b, project) == refresh_requests(a, project) + refresh_requests(
            b,
            project,
        ),
        page_batches(a + b, project, pages) == page_batches(a, project, pages) + page_batches(
            b,
            project,
            pages,
        ),
        ({
            let asked = refresh_requests(seq![row], project);
            let batches = page_batches(seq![row], project, pages);
            let meant = match project {
                Some(name) => name == row.0,
                None => true,
            };
            &&& meant ==> asked == seq![(row.0, row.1.database_id)]
            &&& !meant ==> asked.len() == 0 && batches.len() == 0
            &&& meant && pages.contains_key(row.0) ==> batches == seq![
                (row.0, tickets_of_pages(pages[row.0])),
            ]
            &&& !pages.contains_key(row.0) ==> batches.len() == 0
        }),
        refresh_requests(Seq::empty(), project).len() == 0,
        page_batches(Seq::empty(), project, pages).len() == 0,
    decreases b.len(),
{
    let none: Seq<(Seq<char>, ProjectConfigView)> = Seq::empty();
    let no_batches: Seq<(Seq<char>, Seq<TicketView>)> = Seq::empty();
    let no_requests: Seq<(Seq<char>, Seq<char>)> = Seq::empty();
    let one = seq![row];
    assert(one.drop_last() == none);
    assert(refresh_requests(none, project) == no_requests);
    assert(page_batches(none, project, pages) == no_batches);
    assert(no_requests.push((row.0, row.1.database_id)) == seq![(row.0, row.1.database_id)]);
    let batch = (row.0, tickets_of_pages(pages[row.0]));
    assert(no_batches.push(batch) == seq![batch]);
    if b.len() == 0 {
        assert(a + b == a);
        assert(b == none);
    } else {
        assert((a + b).drop_last() == a + b.drop_last());
        law_refresh_takes_every_picked_project(a, b.drop_last(), project, pages, row);
        assert(refresh_requests(a + b, project) =~= refresh_requests(a, project)
            + refresh_requests(b, project));
        assert(page_batches(a + b, project, pages) =~= page_batches(a, project, pages)
            + page_batches(b, project, pages));
    }
}

/// Every page becomes one ticket, in the order of the pages.
pub proof fn law_every_page_becomes_a_ticket(pages: Seq<Json>, i: int)
    requires
        0 <= i < pages.len(),
    ensures
        tickets_of_pages(pages).len() == pages.len(),
        tickets_of_pages(pages)[i] == ticket_of_page(pages[i]),
{
}

/// A full refresh goes by what came in and not by what was held; a refresh of one project starts
/// from all that was held.
pub proof fn law_what_a_refresh_starts_from(
    cache: CacheView,
    other: CacheView,
    name: Seq<char>,
    pages: Map<Seq<char>, Seq<Json>>,
)
    requires
        other.projects == cache.projects,
    ensures
        refreshed(cache, None, pages) == refreshed(other, None, pages),
        refreshed(cache, None, pages) == filed_all(
            HoldingsView { tree: Map::empty(), slug_map: Map::empty() },
            page_batches(cache.projects, None, pages),
        ),
        refreshed(cache, Some(name), pages) == filed_all(
            cache.held,
            page_batches(cache.projects, Some(name), pages),
        ),
        kept_count(cache, None) == 0,
        kept_count(cache, Some(name)) == tree_count(cache.held.tree),
{
}

/// A refresh has room for its tickets exactly where they can be counted together with those that
/// stay.
pub proof fn law_room_is_what_can_be_counted(
    cache: CacheView,
    name: Seq<char>,
    pages: Map<Seq<char>, Seq<Json>>,
)
    ensures
        room_for(cache, None, pages) <==> batches_len(page_batches(cache.projects, None, pages))
            <= usize::MAX,
        room_for(cache, Some(name), pages) <==> tree_count(cache.held.tree) + batches_len(
            page_batches(cache.projects, Some(name), pages),
        ) <= usize::MAX,
{
}

/// Each project that is saved has a file with all its tickets; of several with one file the last
/// stands. Without a disk cache nothing is saved.
pub proof fn law_every_project_is_saved(
    dir: Seq<char>,
    a: Seq<(Seq<char>, Seq<TicketView>)>,
    b: Seq<(Seq<char>, Seq<TicketView>)>,
    batch: (Seq<char>, Seq<TicketView>),
)
    ensures
        saved_files(Some(dir), a + b) == saved_files(Some(dir), a).union_prefer_right(
            saved_files(Some(dir), b),
        ),
        saved_files(Some(dir), seq![batch]) == Map::<Seq<char>, Seq<TicketView>>::empty().insert(
            cache_path(dir, slug_of(batch.0)),
            batch.1,
        ),
        saved_files(Some(dir), Seq::empty()) == Map::<Seq<char>, Seq<TicketView>>::empty(),
        saved_files(None, a) == Map::<Seq<char>, Seq<TicketView>>::empty(),
    decreases b.len(),
{
    let none: Seq<(Seq<char>, Seq<TicketView>)> = Seq::empty();
    let one = seq![batch];
    assert(one.drop_last() == none);
    assert(saved_files(Some(dir), none) == Map::<Seq<char>, Seq<TicketView>>::empty());
    if b.len() == 0 {
        assert(a + b == a);
        assert(b == none);
        assert(saved_files(Some(dir), a).union_prefer_right(saved_files(Some(dir), b))
            =~= saved_files(Some(dir), a));
    } else {
        assert((a + b).drop_last() == a + b.drop_last());
        law_every_project_is_saved(dir, a, b.drop_last(), batch);
        assert(saved_files(Some(dir), a + b) =~= saved_files(Some(dir), a).union_prefer_right(
            saved_files(Some(dir), b),
        ));
    }
}

/// The name that a project's directory is refreshed by is the display name that its slug stands
/// for, where that is configured; otherwise the last configured name with that slug, where there is
/// one.
pub proof fn law_directory_is_refreshed_by_its_display_name(
    cache: CacheView,
    slug: Seq<char>,
    i: int,
)
    requires
        0 <= i < cache.projects.len(),
        slug_of(cache.projects[i].0) == slug,
        forall|j: int|
            i < j < cache.projects.len() ==> slug_of((#[trigger] cache.projects[j]).0) != slug,
    ensures
        ({
            let shown = cache.held.slug_map;
            let known = shown.contains_key(slug) && exists|j: int|
                0 <= j < cache.projects.len() && (#[trigger] cache.projects[j]).0 == shown[slug];
            &&& known ==> project_name_of(cache, slug) == shown[slug]
            &&& !known ==> project_name_of(cache, slug) == cache.projects[i].0
        }),
{
    lemma_last_configured_name(cache.projects, slug, i);
}

proof fn lemma_last_configured_name(
    projects: Seq<(Seq<char>, ProjectConfigView)>,
    slug: Seq<char>,
    i: int,
)
    requires
        0 <= i < projects.len(),
        slug_of(projects[i].0) == slug,
        forall|j: int| i < j < projects.len() ==> slug_of((#[trigger] projects[j]).0) != slug,
    ensures
        configured_name(projects, slug) == Some(projects[i].0),
    decreases projects.len(),
{
    let last = projects.len() - 1;
    if i < last {
        assert(slug_of(projects[last].0) != slug);
        let rest = projects.drop_last();
        assert forall|j: int| i < j < rest.len() implies slug_of((#[trigger] rest[j]).0) != slug by {
            assert(rest[j] == projects[j]);
        }
        lemma_last_configured_name(rest, slug, i);
    }
}

/// A slug that no configured project has is refreshed by its display name, or else by itself.
pub proof fn law_other_directories_have_their_display_name(cache: CacheView, slug: Seq<char>)
    requires
        forall|j: int|
            0 <= j < cache.projects.len() ==> slug_of((#[trigger] cache.projects[j]).0) != slug,
    ensures
        cache.held.slug_map.contains_key(slug) ==> project_name_of(cache, slug)
            == cache.held.slug_map[slug],
        !cache.held.slug_map.contains_key(slug) ==> project_name_of(cache, slug) == slug,
{
    lemma_no_configured_name(cache.projects, slug);
}

proof fn lemma_no_configured_name(
    projects: Seq<(Seq<char>, ProjectConfigView)>,
    slug: Seq<char>,
)
    requires
        forall|j: int| 0 <= j < projects.len() ==> slug_of((#[trigger] projects[j]).0) != slug,
    ensures
        configured_name(projects, slug) is None,
    decreases projects.len(),
{
    if projects.len() > 0 {
        assert(slug_of(projects[projects.len() - 1].0) != slug);
        let rest = projects.drop_last();
        assert forall|j: int| 0 <= j < rest.len() implies slug_of((#[trigger] rest[j]).0) != slug by {
            assert(rest[j] == projects[j]);
        }
        lemma_no_configured_name(rest, slug);
    }
}

/// A description changes the tree and nothing else of the cache.
pub proof fn law_description_changes_the_tree_alone(
    cache: CacheView,
    project: Seq<char>,
    assignee: Seq<char>,
    status: Seq<char>,
    file: Seq<char>,
    page_id: Seq<char>,
    description: Seq<char>,
)
    ensures
        ({
            let after = described(
                cache,
                project,
                assignee,
                status,
                file,
                page_id,
                description,
            );
            &&& after.held.tree == with_description(
                cache.held.tree,
                project,
                assignee,
                status,
                file,
                page_id,
                description,
            )
            &&& after.held.slug_map == cache.held.slug_map
            &&& after.projects == cache.projects
            &&& after.default_project == cache.default_project
            &&& after.users == cache.users
            &&& after.token == cache.token
            &&& after.cache_dir == cache.cache_dir
        }),
{
}

/// Pairs of texts are those of the pairs of strings, one for one.
pub proof fn law_pairs_are_those_of_the_strings(pairs: Seq<(String, String)>, i: int)
    requires
        0 <= i < pairs.len(),
    ensures
        pairs_of(pairs).len() == pairs.len(),
        pairs_of(pairs)[i] == (pairs[i].0@, pairs[i].1@),
{
}

/// A file of the disk cache reads as all the tickets that it was found to hold, and as none where it
/// is corrupt.
pub proof fn law_cache_file_holds_its_tickets(tickets: Vec<Ticket>, i: int)
    requires
        0 <= i < tickets@.len(),
    ensures
        CacheFile::Tickets(tickets).deep_view() is Some,
        CacheFile::Tickets(tickets).deep_view()->0.len() == tickets@.len(),
        CacheFile::Tickets(tickets).deep_view()->0[i] == tickets@[i]@,
        CacheFile::Corrupt.deep_view() is None,
{
}

} // verus!
