use std::collections::hash_map::DefaultHasher;
use std::hash::{Hash, Hasher};
use std::path::PathBuf;

use notion_fs::cache::{CacheFile, NotionCache};
use notion_fs::client::NotionClient;
use notion_fs::config::{Config, ProjectConfig};
use notion_fs::dict::Dict;
use notion_fs::fs::{Change, DirEntry, Errno, NotionFS, PendingRead, ReadStep, RefreshRequest};
use notion_fs::inode::{hash_to_ino, path_to_ino};
use notion_fs::json::{Json, JsonNumber};
use notion_fs::listing::FileKind;
use notion_fs::notion::Ticket;

fn text(s: &str) -> Json {
    Json::Text(s.to_string())
}

fn object(members: Vec<(&str, Json)>) -> Json {
    let mut rows = Vec::new();
    for (name, value) in members {
        rows.push((name.to_string(), value));
    }
    Json::Object(rows)
}

fn page(n: u64, status: &str) -> Json {
    object(vec![
        ("id", text(&format!("page-{}", n))),
        (
            "properties",
            object(vec![
                (
                    "ID",
                    object(vec![
                        ("type", text("unique_id")),
                        (
                            "unique_id",
                            object(vec![
                                ("prefix", text("GB")),
                                (
                                    "number",
                                    Json::Number(JsonNumber {
                                        text: n.to_string(),
                                        unsigned: Some(n),
                                    }),
                                ),
                            ]),
                        ),
                    ]),
                ),
                (
                    "Status",
                    object(vec![
                        ("type", text("status")),
                        ("status", object(vec![("name", text(status))])),
                    ]),
                ),
            ]),
        ),
    ])
}

fn pages(list: Vec<Json>) -> Dict<Vec<Json>> {
    let mut pages: Dict<Vec<Json>> = Dict::new();
    pages.insert("Gen Book".to_string(), list);
    pages
}

fn filesystem_project() -> ProjectConfig {
    ProjectConfig {
        database_id: "db".to_string(),
        epics_database_id: String::new(),
        prop_epic: String::new(),
        epic_status_type: String::new(),
        date_property: String::new(),
        date_property_type: String::new(),
    }
}

fn filesystem() -> NotionFS {
    let mut config = Config::default();
    config.projects.insert("Gen Book".to_string(), filesystem_project());
    let client = NotionClient::new("token".to_string());
    let mut cache = NotionCache::new(config, client, Some("c".to_string()));
    cache.refresh(None, &pages(vec![page(1, "Done"), page(2, "Done"), page(3, "To Do")]));
    NotionFS::new(cache, 1000, 100)
}

fn walk(fs: &mut NotionFS, names: &[&str]) -> u64 {
    let mut ino = 1;
    for name in names {
        ino = fs.lookup(ino, Some(name)).unwrap().ino;
    }
    ino
}

fn refresh_of(step: ReadStep) -> RefreshRequest {
    match step {
        ReadStep::Refresh(request) => request,
        other => panic!("{:?}", other),
    }
}

fn fetch_of(step: ReadStep) -> PendingRead {
    match step {
        ReadStep::Fetch(pending) => pending,
        other => panic!("{:?}", other),
    }
}

fn data_of(step: ReadStep) -> Vec<u8> {
    match step {
        ReadStep::Data(data) => data,
        other => panic!("{:?}", other),
    }
}

#[test]
fn inode_is_the_hash_of_the_path() {
    for p in ["/genbook", "/genbook/alice", "/genbook/alice/in-progress/GB-319.md", ""] {
        let mut hasher = DefaultHasher::new();
        PathBuf::from(p).hash(&mut hasher);
        assert_eq!(path_to_ino(p), hash_to_ino(hasher.finish()), "{}", p);
        assert_eq!(path_to_ino(p), path_to_ino(p));
    }
    assert_eq!(path_to_ino("/"), 1);
    assert_ne!(path_to_ino("/a"), path_to_ino("/b"));
}

#[test]
fn same_path_has_the_same_inode() {
    let texts = [
        "", ".", "./", "./a", "a", "a/", "a/.", "a/./b", "a//b", "a/b", "/a", "//a", "/./a", "/a/",
        "/a/b", "/a//b", "/a/b/", "/a/./b", "/a/b/.", "/a/././b", "/a/../b", "/a/..", "//", "/.",
    ];
    for p in texts {
        for q in texts {
            if PathBuf::from(p) == PathBuf::from(q) {
                assert_eq!(path_to_ino(p), path_to_ino(q), "{} {}", p, q);
            }
        }
    }
    assert_eq!(path_to_ino("/a/b"), path_to_ino("/a//b"));
    assert_eq!(path_to_ino("/a/b"), path_to_ino("/a/b/"));
    assert_ne!(path_to_ino("/a/b"), path_to_ino("/a/../b"));
    assert_ne!(path_to_ino("/"), path_to_ino("//"));
}

#[test]
fn two_inodes_are_kept_free() {
    assert_eq!(hash_to_ino(0), 2);
    assert_eq!(hash_to_ino(1), 3);
    assert_eq!(hash_to_ino(2), 2);
    assert_eq!(hash_to_ino(u64::MAX), u64::MAX);
}

#[test]
fn root_is_a_directory() {
    let fs = filesystem();
    let attr = fs.getattr(1).unwrap();
    assert_eq!(attr.ino, 1);
    assert_eq!(attr.kind, FileKind::Directory);
    assert_eq!(attr.perm, 0o555);
    assert_eq!(attr.size, 0);
    assert_eq!(attr.blocks, 0);
    assert_eq!(attr.nlink, 2);
    assert_eq!((attr.uid, attr.gid), (1000, 100));
    assert_eq!((attr.rdev, attr.blksize, attr.flags), (0, 512, 0));
}

#[test]
fn lookup_finds_what_is_there() {
    let mut fs = filesystem();
    let dir = fs.lookup(1, Some("gen-book")).unwrap();
    assert_eq!(dir.kind, FileKind::Directory);
    assert_eq!(dir.ino, path_to_ino("/gen-book"));
    assert_eq!(fs.getattr(dir.ino), Ok(dir));
    let refresh = fs.lookup(dir.ino, Some(".refresh")).unwrap();
    assert_eq!(refresh.kind, FileKind::RegularFile);
    let ino = walk(&mut fs, &["gen-book", "unassigned", "done", "GB-1.md"]);
    assert_eq!(ino, path_to_ino("/gen-book/unassigned/done/GB-1.md"));
    let file = fs.getattr(ino).unwrap();
    assert_eq!(file.kind, FileKind::RegularFile);
    assert_eq!(file.perm, 0o444);
    assert_eq!((file.size, file.blocks, file.nlink), (4096, 1, 1));
}

#[test]
fn lookup_of_what_is_not_there_fails() {
    let mut fs = filesystem();
    assert_eq!(fs.lookup(1, Some("nothing")), Err(Errno::NotFound));
    assert_eq!(fs.lookup(1, None), Err(Errno::NotFound));
    assert_eq!(fs.lookup(12345, Some("gen-book")), Err(Errno::NotFound));
    assert_eq!(fs.getattr(12345), Err(Errno::NotFound));
    assert_eq!(fs.getattr(path_to_ino("/gen-book")), Err(Errno::NotFound));
}

#[test]
fn directories_are_listed() {
    let mut fs = filesystem();
    let project = walk(&mut fs, &["gen-book"]);
    let entries = fs.readdir(project, 0).unwrap();
    assert_eq!(
        entries,
        vec![
            DirEntry {
                ino: project,
                next: 1,
                kind: FileKind::Directory,
                name: ".".to_string(),
            },
            DirEntry { ino: 1, next: 2, kind: FileKind::Directory, name: "..".to_string() },
            DirEntry {
                ino: path_to_ino("/gen-book/.refresh"),
                next: 3,
                kind: FileKind::RegularFile,
                name: ".refresh".to_string(),
            },
            DirEntry {
                ino: path_to_ino("/gen-book/unassigned"),
                next: 4,
                kind: FileKind::Directory,
                name: "unassigned".to_string(),
            },
        ]
    );
    let root = fs.readdir(1, 0).unwrap();
    assert_eq!(root.len(), 3);
    assert_eq!(root[1].ino, 1);
    assert_eq!(root[2].name, "gen-book");
}

#[test]
fn listed_entries_can_be_looked_up() {
    let mut fs = filesystem();
    for names in [vec![], vec!["gen-book"], vec!["gen-book", "unassigned"], vec!["gen-book", "unassigned", "done"]] {
        let ino = walk(&mut fs, &names);
        let entries = fs.readdir(ino, 2).unwrap();
        assert!(!entries.is_empty());
        for entry in entries {
            assert_eq!(fs.getattr(entry.ino).unwrap().kind, entry.kind);
            let attr = fs.lookup(ino, Some(&entry.name)).unwrap();
            assert_eq!(attr.ino, entry.ino);
            assert_eq!(attr.kind, entry.kind);
        }
    }
}

#[test]
fn listing_resumes_where_it_stopped() {
    let mut fs = filesystem();
    let ino = walk(&mut fs, &["gen-book", "unassigned", "done"]);
    let all = fs.readdir(ino, 0).unwrap();
    assert_eq!(all.len(), 4);
    for entry in &all {
        let rest = fs.readdir(ino, entry.next).unwrap();
        assert_eq!(rest.len() as u64, 4 - entry.next);
        for i in 0..rest.len() {
            assert_eq!(rest[i], all[entry.next as usize + i]);
        }
    }
    assert!(fs.readdir(ino, u64::MAX).unwrap().is_empty());
}

#[test]
fn only_directories_are_listed() {
    let mut fs = filesystem();
    let file = walk(&mut fs, &["gen-book", "unassigned", "done", "GB-1.md"]);
    assert_eq!(fs.readdir(file, 0), Err(Errno::NotDirectory));
    assert_eq!(fs.readdir(12345, 0), Err(Errno::NotFound));
    let refresh = walk(&mut fs, &["gen-book", ".refresh"]);
    assert_eq!(fs.readdir(refresh, 0).unwrap().len(), 2);
}

#[test]
fn files_open_for_reading_only() {
    let fs = filesystem();
    assert_eq!(fs.open(0, 3, 0), Ok(()));
    assert_eq!(fs.open(0o2000000, 3, 0), Ok(()));
    assert_eq!(fs.open(1, 3, 0), Err(Errno::ReadOnly));
    assert_eq!(fs.open(2, 3, 0), Err(Errno::ReadOnly));
}

#[test]
fn every_change_is_refused() {
    let fs = filesystem();
    for change in [
        Change::Write,
        Change::Setattr,
        Change::Mkdir,
        Change::Rmdir,
        Change::Unlink,
        Change::Rename,
        Change::Create,
        Change::Mknod,
        Change::Symlink,
        Change::Link,
    ] {
        assert_eq!(fs.refuse(change), Errno::ReadOnly);
    }
}

#[test]
fn what_cannot_be_read_is_not_found() {
    let mut fs = filesystem();
    assert!(matches!(fs.read(12345, 0, 10), ReadStep::Fail(Errno::NotFound)));
    assert!(matches!(fs.read(1, 0, 10), ReadStep::Fail(Errno::NotFound)));
    let dir = walk(&mut fs, &["gen-book", "unassigned", "done"]);
    assert!(matches!(fs.read(dir, 0, 10), ReadStep::Fail(Errno::NotFound)));
}

#[test]
fn ticket_is_fetched_once_and_read_in_parts() {
    let mut fs = filesystem();
    let ino = walk(&mut fs, &["gen-book", "unassigned", "done", "GB-1.md"]);
    let pending = fetch_of(fs.read(ino, 0, 4096));
    assert_eq!(pending.ticket.page_id, "page-1");
    assert_eq!(pending.project, "gen-book");
    assert_eq!(pending.file, "GB-1.md");
    let reply = fs.finish_read(pending, Some("Hello.".to_string()));
    let whole = reply.data.unwrap();
    let shown = String::from_utf8(whole.clone()).unwrap();
    assert!(shown.starts_with("---\nticket: GB-1\n"));
    assert!(shown.ends_with("---\n\nHello.\n"));
    let (path, tickets) = reply.file.unwrap();
    assert_eq!(path, "c/gen-book.json");
    assert_eq!(tickets.len(), 3);
    let mut described = Vec::new();
    for t in &tickets {
        if t.description == "Hello." {
            described.push(t.ticket_id.clone());
        }
    }
    assert_eq!(described, vec!["GB-1"]);

    let mut parts = data_of(fs.read(ino, 0, 7));
    assert_eq!(parts.len(), 7);
    parts.append(&mut data_of(fs.read(ino, 7, 4096)));
    assert_eq!(parts, whole);
    assert!(data_of(fs.read(ino, whole.len() as u64, 10)).is_empty());
    assert!(data_of(fs.read(ino, u64::MAX, u32::MAX)).is_empty());
    assert!(data_of(fs.read(ino, 0, 0)).is_empty());
}

#[test]
fn failed_fetch_fails_the_read_and_is_tried_again() {
    let mut fs = filesystem();
    let ino = walk(&mut fs, &["gen-book", "unassigned", "done", "GB-1.md"]);
    let pending = fetch_of(fs.read(ino, 0, 10));
    let reply = fs.finish_read(pending, None);
    assert_eq!(reply.data, Err(Errno::Io));
    assert!(reply.file.is_none());
    assert!(matches!(fs.read(ino, 0, 10), ReadStep::Fetch(_)));
}

#[test]
fn read_from_an_offset_waits_for_the_description_too() {
    let mut fs = filesystem();
    let ino = walk(&mut fs, &["gen-book", "unassigned", "to-do", "GB-3.md"]);
    let pending = fetch_of(fs.read(ino, 4, 6));
    let reply = fs.finish_read(pending, Some(String::new()));
    assert_eq!(reply.data.unwrap(), b"ticket".to_vec());
    assert_eq!(data_of(fs.read(ino, 0, 3)), b"---".to_vec());
}

#[test]
fn refresh_forgets_what_was_rendered() {
    let mut fs = filesystem();
    let ino = walk(&mut fs, &["gen-book", "unassigned", "done", "GB-1.md"]);
    let pending = fetch_of(fs.read(ino, 0, 10));
    fs.finish_read(pending, Some("Hello.".to_string()));
    let refresh = walk(&mut fs, &["gen-book", ".refresh"]);
    let request = refresh_of(fs.read(refresh, 0, 10));
    fs.finish_refresh(&request, &pages(vec![page(1, "Done")]));
    assert!(matches!(fs.read(ino, 0, 10), ReadStep::Fetch(_)));
}

#[test]
fn ticket_with_a_description_is_not_fetched() {
    let mut config = Config::default();
    config.projects.insert("P".to_string(), filesystem_project());
    let client = NotionClient::new("token".to_string());
    let mut cache = NotionCache::new(config, client, Some("c".to_string()));
    let mut ticket = Ticket::default();
    ticket.ticket_id = "T-1".to_string();
    ticket.page_id = "page".to_string();
    ticket.description = "Kept.".to_string();
    let mut files: Dict<CacheFile> = Dict::new();
    files.insert("c/p.json".to_string(), CacheFile::Tickets(vec![ticket.clone()]));
    assert_eq!(cache.load_from_disk(&files), 1);
    let mut fs = NotionFS::new(cache, 0, 0);
    let ino = walk(&mut fs, &["p", "unassigned", "no-status", "T-1.md"]);
    assert_eq!(data_of(fs.read(ino, 0, 4096)), ticket.render());
    assert_eq!(data_of(fs.read(ino, 4, 4096)), ticket.render()[4..].to_vec());
}

#[test]
fn refresh_renews_the_project_and_reports() {
    let mut fs = filesystem();
    let ino = walk(&mut fs, &["gen-book", ".refresh"]);
    let gone = walk(&mut fs, &["gen-book", "unassigned", "to-do"]);
    assert!(data_of(fs.read(ino, 3, 10)).is_empty());
    let request = refresh_of(fs.read(ino, 0, 4096));
    assert_eq!(request.project, "gen-book");
    assert_eq!(request.name, "Gen Book");
    assert_eq!(
        fs.get_cache().projects_to_refresh(Some(&request.name)),
        vec![("Gen Book".to_string(), "db".to_string())]
    );
    let fresh = pages(vec![page(7, "Done"), page(8, "Done")]);
    assert!(fs.get_cache().has_room(Some(&request.name), &fresh));
    let reply = fs.finish_refresh(&request, &fresh);
    assert_eq!(reply.data.unwrap(), b"Refreshed Gen Book: 2 tickets\n".to_vec());
    assert_eq!(reply.files.len(), 1);
    assert_eq!(reply.files.get("c/gen-book.json").unwrap().len(), 2);
    assert_eq!(data_of(fs.read(ino, 10, 8)), b"Gen Book".to_vec());
    assert_eq!(fs.getattr(gone), Err(Errno::NotFound));
    assert!(fs.lookup(path_to_ino("/gen-book"), Some("unassigned")).is_ok());
}

#[test]
fn refresh_is_answered_once_its_tickets_are_counted() {
    let mut fs = filesystem();
    let ino = walk(&mut fs, &["gen-book", ".refresh"]);
    let request = refresh_of(fs.read(ino, 0, 9));
    let reply = fs.answer_refresh(&request, &pages(vec![page(7, "Done")]));
    assert_eq!(reply.data.unwrap(), b"Refreshed".to_vec());
    assert_eq!(data_of(fs.read(ino, 20, 100)), b"1 tickets\n".to_vec());
    assert_eq!(reply.files.len(), 1);
    let nothing: Dict<Vec<Json>> = Dict::new();
    let reply = fs.answer_refresh(&request, &nothing);
    assert_eq!(reply.data, Err(Errno::Io));
    assert_eq!(reply.files.len(), 0);
}

#[test]
fn failed_refresh_changes_nothing() {
    let mut fs = filesystem();
    let ino = walk(&mut fs, &["gen-book", ".refresh"]);
    let request = refresh_of(fs.read(ino, 0, 4096));
    let nothing: Dict<Vec<Json>> = Dict::new();
    let reply = fs.finish_refresh(&request, &nothing);
    assert_eq!(reply.data, Err(Errno::Io));
    assert_eq!(reply.files.len(), 0);
    assert!(fs.lookup(path_to_ino("/gen-book"), Some("unassigned")).is_ok());
    assert!(data_of(fs.read(ino, 1, 10)).is_empty());
}

#[test]
fn inodes_keep_their_paths() {
    let mut fs = filesystem();
    let ino = walk(&mut fs, &["gen-book", "unassigned", "to-do", "GB-3.md"]);
    let refresh = walk(&mut fs, &["gen-book", ".refresh"]);
    let request = refresh_of(fs.read(refresh, 0, 0));
    fs.finish_refresh(&request, &pages(vec![]));
    assert_eq!(fs.getattr(ino), Err(Errno::NotFound));
    let request = refresh_of(fs.read(refresh, 0, 0));
    fs.finish_refresh(&request, &pages(vec![page(3, "To Do")]));
    assert_eq!(fs.getattr(ino).unwrap().ino, ino);
}
