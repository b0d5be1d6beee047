use notion_fs::cache::{read_tickets, CacheFile, NotionCache};
use notion_fs::client::NotionClient;
use notion_fs::config::{
    config_paths, default_epic, default_formula, default_select, default_sort_date, locate_config,
    Config, ProjectConfig,
};
use notion_fs::dict::Dict;
use notion_fs::json::{Json, JsonNumber};
use notion_fs::notion::Ticket;
use notion_fs::tree::{build_project_tree, count_tree};

fn text(s: &str) -> Json {
    Json::Text(s.to_string())
}

fn object(members: Vec<(&str, Json)>) -> Json {
    let mut rows = Vec::new();
    for (name, value) in members {
        rows.push((name.to_string(), value));
    }
    Json::Object(rows)
}

fn page(prefix: &str, n: u64, assignee: &str, status: &str) -> Json {
    object(vec![
        ("id", text(&format!("page-{}-{}", prefix, n))),
        (
            "properties",
            object(vec![
                (
                    "ID",
                    object(vec![
                        ("type", text("unique_id")),
                        (
                            "unique_id",
                            object(vec![
                                ("prefix", text(prefix)),
                                (
                                    "number",
                                    Json::Number(JsonNumber {
                                        text: n.to_string(),
                                        unsigned: Some(n),
                                    }),
                                ),
                            ]),
                        ),
                    ]),
                ),
                (
                    "Assignee",
                    object(vec![(
                        "people",
                        Json::Array(vec![object(vec![("name", text(assignee))])]),
                    )]),
                ),
                (
                    "Status",
                    object(vec![
                        ("type", text("status")),
                        ("status", object(vec![("name", text(status))])),
                    ]),
                ),
            ]),
        ),
    ])
}

fn project(database_id: &str) -> ProjectConfig {
    ProjectConfig {
        database_id: database_id.to_string(),
        epics_database_id: String::new(),
        prop_epic: default_epic(),
        epic_status_type: default_select(),
        date_property: default_sort_date(),
        date_property_type: default_formula(),
    }
}

fn config() -> Config {
    let mut config = Config::default();
    config.projects.insert("Gen Book".to_string(), project("db1"));
    config.projects.insert("Other".to_string(), project("db2"));
    config
}

fn cache(dir: Option<&str>) -> NotionCache {
    let dir = match dir {
        Some(d) => Some(d.to_string()),
        None => None,
    };
    NotionCache::new(config(), NotionClient::new("token".to_string()), dir)
}

fn both() -> Dict<Vec<Json>> {
    let mut pages: Dict<Vec<Json>> = Dict::new();
    pages.insert(
        "Gen Book".to_string(),
        vec![page("GB", 319, "Alice", "In Progress"), page("GB", 412, "Bob", "Done")],
    );
    pages.insert("Other".to_string(), vec![page("OT", 1, "Alice", "Done")]);
    pages
}

#[test]
fn configuration_has_defaults() {
    assert_eq!(default_epic(), "Epic");
    assert_eq!(default_select(), "select");
    assert_eq!(default_sort_date(), "Sort Date");
    assert_eq!(default_formula(), "formula");
    let config = Config::default();
    assert_eq!(config.default_project, "");
    assert_eq!(config.projects.len(), 0);
    assert_eq!(config.users.len(), 0);
    assert_eq!(project("x").clone().prop_epic, "Epic");
}

#[test]
fn configuration_is_looked_for_in_order() {
    assert_eq!(config_paths(None), vec!["/config/notion.yaml", "./config/notion.yaml"]);
    assert_eq!(config_paths(Some("x.yaml")), vec!["x.yaml"]);
    assert_eq!(locate_config(None, &vec![true, true]), Ok("/config/notion.yaml".to_string()));
    assert_eq!(locate_config(None, &vec![false, true]), Ok("./config/notion.yaml".to_string()));
    assert_eq!(
        locate_config(None, &vec![false, false]),
        Err("Error: no config file found".to_string())
    );
    assert_eq!(locate_config(Some("x.yaml"), &vec![true]), Ok("x.yaml".to_string()));
    assert_eq!(
        locate_config(Some("x.yaml"), &vec![false]),
        Err("Error: config not found at x.yaml".to_string())
    );
}

#[test]
fn new_cache_holds_nothing() {
    let cache = cache(Some("./cache"));
    assert_eq!(cache.get_tree().len(), 0);
    assert_eq!(cache.get_slug_map().len(), 0);
    assert_eq!(cache.get_client().headers()[0].1, "Bearer token");
    assert_eq!(cache.cache_files(), vec!["./cache/gen-book.json", "./cache/other.json"]);
}

#[test]
fn projects_to_refresh_are_the_named_one_or_all() {
    let cache = cache(None);
    assert_eq!(
        cache.projects_to_refresh(None),
        vec![
            ("Gen Book".to_string(), "db1".to_string()),
            ("Other".to_string(), "db2".to_string()),
        ]
    );
    assert_eq!(
        cache.projects_to_refresh(Some("Other")),
        vec![("Other".to_string(), "db2".to_string())]
    );
    assert!(cache.projects_to_refresh(Some("other")).is_empty());
}

#[test]
fn full_refresh_rebuilds_the_tree() {
    let mut cache = cache(Some("c"));
    let pages = both();
    assert!(cache.has_room(None, &pages));
    let done = cache.refresh(None, &pages);
    assert_eq!(done.total, 3);
    assert_eq!(count_tree(&cache.get_tree()), 3);
    assert_eq!(done.files.len(), 2);
    assert_eq!(done.files.get("c/gen-book.json").unwrap().len(), 2);
    assert_eq!(done.files.get("c/other.json").unwrap()[0].ticket_id, "OT-1");
    assert_eq!(cache.get_slug_map().get("gen-book").unwrap(), "Gen Book");
    assert_eq!(cache.get_slug_map().get("in-progress").unwrap(), "In Progress");
    let tree = cache.get_tree();
    let bob = tree.get("gen-book").unwrap().get("bob").unwrap();
    assert_eq!(bob.get("done").unwrap()[0].ticket_id, "GB-412");
}

#[test]
fn full_refresh_drops_a_project_without_pages() {
    let mut cache = cache(None);
    cache.refresh(None, &both());
    let mut pages: Dict<Vec<Json>> = Dict::new();
    pages.insert("Other".to_string(), vec![]);
    let done = cache.refresh(None, &pages);
    assert_eq!(done.total, 0);
    assert_eq!(done.files.len(), 0);
    assert_eq!(cache.get_tree().len(), 1);
    assert!(cache.get_tree().contains_key("other"));
}

#[test]
fn refresh_of_one_project_keeps_the_others() {
    let mut cache = cache(Some("c"));
    cache.refresh(None, &both());
    let mut pages: Dict<Vec<Json>> = Dict::new();
    pages.insert("Other".to_string(), vec![page("OT", 2, "", ""), page("OT", 3, "", "")]);
    pages.insert("Gen Book".to_string(), vec![]);
    let done = cache.refresh(Some("Other"), &pages);
    assert_eq!(done.total, 4);
    assert_eq!(done.files.len(), 1);
    assert!(done.files.contains_key("c/other.json"));
    assert_eq!(cache.get_tree().get("gen-book").unwrap().len(), 2);
    assert!(cache.get_tree().get("other").unwrap().contains_key("unassigned"));
    let again = cache.refresh(Some("Other"), &pages);
    assert_eq!(again.total, 4);
}

#[test]
fn refresh_of_an_unknown_project_changes_nothing() {
    let mut cache = cache(Some("c"));
    cache.refresh(None, &both());
    let done = cache.refresh(Some("Nobody"), &both());
    assert_eq!(done.total, 3);
    assert_eq!(done.files.len(), 0);
}

#[test]
fn what_a_refresh_saves_a_load_finds() {
    let mut first = cache(Some("c"));
    let done = first.refresh(None, &both());
    let mut files: Dict<CacheFile> = Dict::new();
    for i in 0..done.files.len() {
        let mut tickets = Vec::new();
        for t in done.files.value_at(i) {
            tickets.push(t.clone());
        }
        files.insert(done.files.key_at(i).clone(), CacheFile::Tickets(tickets));
    }
    let mut later = cache(Some("c"));
    assert_eq!(later.count_cached(&files), Some(3));
    assert_eq!(later.load_from_disk(&files), 3);
    let (old, new) = (first.get_tree(), later.get_tree());
    for slug in ["gen-book", "other"] {
        let a = old.get(slug).unwrap();
        let b = new.get(slug).unwrap();
        assert_eq!(a.len(), b.len());
        for i in 0..a.len() {
            let dirs = b.get(a.key_at(i)).unwrap();
            for j in 0..a.value_at(i).len() {
                assert_eq!(
                    dirs.get(a.value_at(i).key_at(j)).unwrap(),
                    a.value_at(i).value_at(j)
                );
            }
        }
    }
    assert_eq!(later.get_slug_map().len(), first.get_slug_map().len());
    assert!(matches!(later.missing_projects(&files, 3), Some(names) if names.is_empty()));
}

#[test]
fn corrupt_files_are_fetched_anew() {
    let mut cache = cache(Some("c"));
    let mut files: Dict<CacheFile> = Dict::new();
    files.insert("c/gen-book.json".to_string(), CacheFile::Corrupt);
    files.insert("c/other.json".to_string(), CacheFile::Tickets(vec![Ticket::default()]));
    files.insert("c/stray.json".to_string(), CacheFile::Corrupt);
    assert_eq!(cache.load_from_disk(&files), 1);
    assert_eq!(cache.get_tree().len(), 1);
    assert_eq!(cache.missing_projects(&files, 1), Some(vec!["Gen Book".to_string()]));
}

#[test]
fn without_a_disk_cache_nothing_is_loaded_or_saved() {
    let mut cache = cache(None);
    assert!(cache.cache_files().is_empty());
    let files: Dict<CacheFile> = Dict::new();
    assert_eq!(cache.load_from_disk(&files), 0);
    assert_eq!(cache.missing_projects(&files, 0), None);
    let done = cache.refresh(None, &both());
    assert_eq!(done.total, 3);
    assert_eq!(done.files.len(), 0);
    assert!(cache.save_project_cache("other").is_none());
}

#[test]
fn one_project_is_saved_with_its_tickets() {
    let mut cache = cache(Some("/var/cache/"));
    cache.refresh(None, &both());
    let (path, tickets) = cache.save_project_cache("gen-book").unwrap();
    assert_eq!(path, "/var/cache/gen-book.json");
    assert_eq!(tickets.len(), 2);
    let mut slug_map: Dict<String> = Dict::new();
    let again = build_project_tree(&tickets, &mut slug_map);
    assert_eq!(again.len(), cache.get_tree().get("gen-book").unwrap().len());
    assert!(cache.save_project_cache("nobody").is_none());
}

#[test]
fn project_saved_by_itself_loads_as_it_was() {
    let mut first = cache(Some("c"));
    first.refresh(None, &both());
    first.store_description(
        "gen-book",
        "bob",
        "done",
        "GB-412.md",
        "page-GB-412",
        "text".to_string(),
    );
    let (path, tickets) = first.save_project_cache("gen-book").unwrap();
    let mut files: Dict<CacheFile> = Dict::new();
    files.insert(path, CacheFile::Tickets(tickets));
    files.insert("c/other.json".to_string(), CacheFile::Corrupt);
    let mut later = cache(Some("c"));
    assert_eq!(later.load_from_disk(&files), 2);
    assert_eq!(later.get_tree().len(), 1);
    let (old, new) = (first.get_tree(), later.get_tree());
    let a = old.get("gen-book").unwrap();
    let b = new.get("gen-book").unwrap();
    assert_eq!(a.len(), b.len());
    for i in 0..a.len() {
        let dirs = b.get(a.key_at(i)).unwrap();
        assert_eq!(a.value_at(i).len(), dirs.len());
        for j in 0..dirs.len() {
            assert_eq!(
                a.value_at(i).get(dirs.key_at(j)).unwrap(),
                dirs.value_at(j)
            );
        }
    }
}

#[test]
fn project_directories_are_refreshed_by_name() {
    let mut cache = cache(None);
    let mut pages = both();
    pages.insert("Other".to_string(), vec![page("OT", 1, "gen_book", "Done")]);
    cache.refresh(None, &pages);
    assert_eq!(cache.get_slug_map().get("gen-book").unwrap(), "gen_book");
    assert_eq!(cache.project_name("gen-book"), "Gen Book");
    assert_eq!(cache.project_name("done"), "Done");
    assert_eq!(cache.project_name("unknown"), "unknown");
}

#[test]
fn projects_of_one_slug_are_refreshed_by_the_one_that_is_held() {
    let mut config = Config::default();
    config.projects.insert("Gen Book".to_string(), project("db1"));
    config.projects.insert("gen-book".to_string(), project("db2"));
    let client = NotionClient::new("token".to_string());
    let mut cache = NotionCache::new(config, client, None);
    assert_eq!(cache.project_name("gen-book"), "gen-book");
    let mut pages: Dict<Vec<Json>> = Dict::new();
    pages.insert("Gen Book".to_string(), vec![page("GB", 1, "Alice", "Done")]);
    cache.refresh(None, &pages);
    assert_eq!(cache.get_slug_map().get("gen-book").unwrap(), "Gen Book");
    assert_eq!(cache.project_name("gen-book"), "Gen Book");
    pages.insert("gen-book".to_string(), vec![page("GB", 2, "Alice", "Done")]);
    cache.refresh(None, &pages);
    assert_eq!(cache.project_name("gen-book"), "gen-book");
}

#[test]
fn tree_taken_before_a_change_stays_as_it_was() {
    let mut cache = cache(Some("c"));
    cache.refresh(None, &both());
    let before = cache.get_tree();
    let names = cache.get_slug_map();
    let mut pages: Dict<Vec<Json>> = Dict::new();
    pages.insert("Other".to_string(), vec![page("OT", 9, "Zoe", "Open")]);
    let (done, trees) = cache.renew(Some("Other"), &pages).unwrap();
    assert_eq!(done.total, 3);
    for old in [&before, &trees.previous] {
        assert_eq!(old.get("other").unwrap().get("alice").unwrap().get("done").unwrap().len(), 1);
        assert!(!old.get("other").unwrap().contains_key("zoe"));
    }
    assert!(!names.contains_key("zoe"));
    for new in [&cache.get_tree(), &trees.current] {
        assert!(!new.get("other").unwrap().contains_key("alice"));
        assert!(new.get("other").unwrap().contains_key("zoe"));
        assert_eq!(new.get("gen-book").unwrap().len(), 2);
    }
    let files: Dict<CacheFile> = Dict::new();
    let (total, trees) = cache.reload(&files).unwrap();
    assert_eq!(total, 0);
    assert_eq!(trees.current.len(), 0);
    assert_eq!(trees.previous.len(), 2);
    assert_eq!(before.len(), 2);
}

#[test]
fn configuration_can_be_copied() {
    let mut config = config();
    config.default_project = "Other".to_string();
    config.users.insert("Alice".to_string(), "id".to_string());
    let copy = config.clone();
    assert_eq!(format!("{:?}", copy), format!("{:?}", config));
    config.projects.insert("Third".to_string(), project("db3"));
    assert_eq!(copy.projects.len(), 2);
    assert_eq!(copy.projects.key_at(0), "Gen Book");
    assert_eq!(copy.projects.value_at(1).database_id, "db2");
    assert_eq!(copy.users.get("Alice").unwrap(), "id");
    assert_eq!(copy.default_project, "Other");
}

#[test]
fn descriptions_are_kept_in_the_tree() {
    let mut cache = cache(Some("c"));
    cache.refresh(None, &both());
    cache.store_description(
        "other",
        "alice",
        "done",
        "OT-1.md",
        "page-OT-1",
        "text".to_string(),
    );
    let (_, tickets) = cache.save_project_cache("other").unwrap();
    assert_eq!(tickets[0].description, "text");
    assert_eq!(
        cache.fetch_description("page-OT-1").next_url(),
        "https://api.notion.com/v1/blocks/page-OT-1/children"
    );
}

#[test]
fn pages_become_tickets() {
    let pages = both();
    let tickets = read_tickets(pages.get("Gen Book").unwrap());
    assert_eq!(tickets.len(), 2);
    assert_eq!(tickets[0].ticket_id, "GB-319");
    assert_eq!(tickets[1].assignee, "Bob");
}
