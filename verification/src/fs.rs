//! The file system: what each request is answered, and how it changes the state. What a request
//! needs from the API is handed out as a step; the caller takes it and hands the outcome back.

use std::collections::HashMap;

use vstd::prelude::*;
use vstd::utf8::encode_utf8;

use crate::cache::{
    cache_path, described, in_order, page_batches, pairs_of, project_name_of, refresh_requests,
    refreshed, room_for, saved_files, CacheView, HoldingsView, NotionCache,
};
use crate::config::ProjectConfigView;
use crate::dict::Dict;
use crate::inode::{ino_of, path_to_ino, ROOT_INO};
use crate::json::Json;
use crate::listing::{
    law_existing_entries_are_listed, law_listed_entries_exist, lemma_listing_exists,
    list_directory, listing, lists, rows_of, DirRow, FileKind,
};
use crate::lookup::{
    directory_at, exists_at, find_ticket, is_dir, law_description_changes_nothing_else,
    path_exists_in, ticket_file, with_description, REFRESH_FILE,
};
use crate::notion::{ticket_text, Ticket, TicketView};
use crate::path::{
    components_of, is_name, join, joined, law_child_has_one_more_part,
    law_same_path_has_same_names, named, parent, parent_of, parts_of, path_parts,
};
use crate::slug::{base_letters, law_collapse_is_slug, slug_char};
use crate::text::{decimal, optional_text, push_decimal, same_text};
use crate::tree::{project_tree, tree_count};

verus! {

broadcast use vstd::std_specs::hash::group_hash_axioms;

/// How many seconds the kernel may keep an answer.
pub const TTL_SECONDS: u64 = 1;

/// The block size that is reported.
pub const BLOCK_SIZE: u32 = 512;

/// Why a request fails.
#[derive(Clone, Copy, Debug, PartialEq, Eq, Structural)]
pub enum Errno {
    /// There is no such file or directory.
    NotFound,
    /// What is to be listed is not a directory.
    NotDirectory,
    /// The file system is read-only.
    ReadOnly,
    /// The API could not be asked.
    Io,
}

/// The attributes of a file or a directory. Its times are those of the request.
#[derive(Clone, Copy, Debug, PartialEq, Eq, Structural)]
pub struct NodeAttr {
    pub ino: u64,
    pub size: u64,
    pub blocks: u64,
    pub kind: FileKind,
    pub perm: u16,
    pub nlink: u32,
    pub uid: u32,
    pub gid: u32,
    pub rdev: u32,
    pub blksize: u32,
    pub flags: u32,
}

/// An entry of a directory.
#[derive(Debug, PartialEq, Eq)]
pub struct DirEntry {
    pub ino: u64,
    /// The offset at which a listing goes on behind this entry.
    pub next: u64,
    pub kind: FileKind,
    pub name: String,
}

/// What an entry of a directory holds.
#[verifier::ext_equal]
pub struct DirEntryView {
    pub ino: u64,
    pub next: u64,
    pub kind: FileKind,
    pub name: Seq<char>,
}

impl View for DirEntry {
    type V = DirEntryView;

    open spec fn view(&self) -> DirEntryView {
        DirEntryView { ino: self.ino, next: self.next, kind: self.kind, name: self.name@ }
    }
}

/// What some entries hold.
pub open spec fn entries_of(entries: Seq<DirEntry>) -> Seq<DirEntryView> {
    entries.map_values(|entry: DirEntry| entry@)
}

/// The file system.
pub struct NotionFS {
    cache: NotionCache,
    rendered: Dict<Vec<u8>>,
    refresh_buf: Dict<Vec<u8>>,
    ino_to_path: HashMap<u64, String>,
    uid: u32,
    gid: u32,
}

/// The state of the file system.
#[verifier::ext_equal]
pub struct FsView {
    pub cache: CacheView,
    /// The tickets that are rendered, by their page.
    pub rendered: Map<Seq<char>, Seq<u8>>,
    /// What the last refresh of each project reported.
    pub refresh_buf: Map<Seq<char>, Seq<u8>>,
    /// The path of each inode that was given out.
    pub paths: Map<u64, Seq<char>>,
    pub uid: u32,
    pub gid: u32,
}

impl View for NotionFS {
    type V = FsView;

    closed spec fn view(&self) -> FsView {
        FsView {
            cache: self.cache@,
            rendered: self.rendered@,
            refresh_buf: self.refresh_buf@,
            paths: self.ino_to_path@.map_values(|path: String| path@),
            uid: self.uid,
            gid: self.gid,
        }
    }
}

// ---------------------------------------------------------------------------
// Inodes
// ---------------------------------------------------------------------------

/// The paths of the inodes once a path has its inode. An inode keeps the path that it has.
pub open spec fn registered(paths: Map<u64, Seq<char>>, path: Seq<char>) -> Map<u64, Seq<char>> {
    if paths.contains_key(ino_of(path)) {
        paths
    } else {
        paths.insert(ino_of(path), path)
    }
}

/// The paths of the inodes once some paths, one after the other, have theirs.
pub open spec fn registered_all(
    paths: Map<u64, Seq<char>>,
    more: Seq<Seq<char>>,
) -> Map<u64, Seq<char>>
    decreases more.len(),
{
    if more.len() == 0 {
        paths
    } else {
        registered(registered_all(paths, more.drop_last()), more.last())
    }
}

/// Whether every inode is that of its path, and the root has its own.
pub open spec fn paths_agree(paths: Map<u64, Seq<char>>) -> bool {
    &&& paths.contains_key(ROOT_INO)
    &&& forall|ino: u64| #[trigger] paths.contains_key(ino) ==> ino_of(paths[ino]) == ino
}

/// Whether every inode that was given out still has its path, and every inode is still that of its
/// path.
pub open spec fn inodes_kept(before: Map<u64, Seq<char>>, after: Map<u64, Seq<char>>) -> bool {
    &&& forall|ino: u64| #[trigger]
        before.contains_key(ino) ==> after.contains_key(ino) && after[ino] == before[ino]
    &&& paths_agree(before) ==> paths_agree(after)
}

proof fn lemma_registered_all(paths: Map<u64, Seq<char>>, more: Seq<Seq<char>>)
    ensures
        inodes_kept(paths, registered_all(paths, more)),
    decreases more.len(),
{
    if more.len() > 0 {
        lemma_registered_all(paths, more.drop_last());
    }
}

/// Two inodes never have the same path.
pub proof fn law_no_path_has_two_inodes(paths: Map<u64, Seq<char>>, a: u64, b: u64)
    requires
        paths_agree(paths),
        paths.contains_key(a),
        paths.contains_key(b),
        paths[a] == paths[b],
    ensures
        a == b,
{
}

impl NotionFS {
    /// A file system over a cache, with the user and group that its files belong to.
    pub fn new(cache: NotionCache, uid: u32, gid: u32) -> (fs: Self)
        ensures
            fs@ == (FsView {
                cache: cache@,
                rendered: Map::empty(),
                refresh_buf: Map::empty(),
                paths: map![ROOT_INO => "/"@],
                uid,
                gid,
            }),
            paths_agree(fs@.paths),
    {
        let mut ino_to_path: HashMap<u64, String> = HashMap::new();
        ino_to_path.insert(ROOT_INO, "/".to_string());
        let fs = NotionFS {
            cache,
            rendered: Dict::new(),
            refresh_buf: Dict::new(),
            ino_to_path,
            uid,
            gid,
        };
        assert(fs@.paths =~= map![ROOT_INO => "/"@]);
        fs
    }

    /// The cache.
    pub fn get_cache(&self) -> (cache: &NotionCache)
        ensures
            cache@ == self@.cache,
    {
        &self.cache
    }

    /// Gives a path its inode, where the inode has no path yet.
    fn register_ino(&mut self, path: &str) -> (ino: u64)
        ensures
            ino == ino_of(path@),
            final(self)@ == (FsView { paths: registered(old(self)@.paths, path@), ..old(self)@ }),
    {
        let ino = path_to_ino(path);
        if !self.ino_to_path.contains_key(&ino) {
            self.ino_to_path.insert(ino, path.to_string());
            assert(self@.paths =~= old(self)@.paths.insert(ino, path@));
        }
        ino
    }

    /// The path of an inode.
    fn get_path(&self, ino: u64) -> (path: Option<String>)
        ensures
            match path {
                Some(p) => self@.paths.contains_key(ino) && p@ == self@.paths[ino],
                None => !self@.paths.contains_key(ino),
            },
    {
        match self.ino_to_path.get(&ino) {
            Some(path) => Some(path.clone()),
            None => None,
        }
    }
}

// ---------------------------------------------------------------------------
// Attributes
// ---------------------------------------------------------------------------

/// The attributes of a directory: anyone may list it, nobody may change it.
pub open spec fn dir_attr_of(fs: FsView, ino: u64) -> NodeAttr {
    NodeAttr {
        ino,
        size: 0,
        blocks: 0,
        kind: FileKind::Directory,
        perm: 0o555,
        nlink: 2,
        uid: fs.uid,
        gid: fs.gid,
        rdev: 0,
        blksize: BLOCK_SIZE,
        flags: 0,
    }
}

/// The attributes of a file: anyone may read it, nobody may change it, and its size is an
/// estimate.
pub open spec fn file_attr_of(fs: FsView, ino: u64) -> NodeAttr {
    NodeAttr {
        ino,
        size: 4096,
        blocks: 1,
        kind: FileKind::RegularFile,
        perm: 0o444,
        nlink: 1,
        uid: fs.uid,
        gid: fs.gid,
        rdev: 0,
        blksize: BLOCK_SIZE,
        flags: 0,
    }
}

/// The attributes of what stands at a path.
pub open spec fn attr_at(fs: FsView, ino: u64, path: Seq<char>) -> NodeAttr {
    if directory_at(parts_of(path)) {
        dir_attr_of(fs, ino)
    } else {
        file_attr_of(fs, ino)
    }
}

/// Whether there is a file or a directory at a path.
pub open spec fn is_at(fs: FsView, path: Seq<char>) -> bool {
    exists_at(fs.cache.held.tree, parts_of(path))
}

/// The answer to a request for the attributes of an inode.
pub open spec fn getattr_answer(fs: FsView, ino: u64) -> Result<NodeAttr, Errno> {
    if fs.paths.contains_key(ino) && is_at(fs, fs.paths[ino]) {
        Ok(attr_at(fs, ino, fs.paths[ino]))
    } else {
        Err(Errno::NotFound)
    }
}

/// The path that a name leads to in a directory, where it leads anywhere.
pub open spec fn lookup_path(fs: FsView, parent: u64, name: Option<Seq<char>>) -> Option<Seq<char>> {
    if fs.paths.contains_key(parent) && name is Some && is_at(
        fs,
        joined(fs.paths[parent], name->0),
    ) {
        Some(joined(fs.paths[parent], name->0))
    } else {
        None
    }
}

/// The answer to a request for a name in a directory.
pub open spec fn lookup_answer(
    fs: FsView,
    parent: u64,
    name: Option<Seq<char>>,
) -> Result<NodeAttr, Errno> {
    match lookup_path(fs, parent, name) {
        Some(path) => Ok(attr_at(fs, ino_of(path), path)),
        None => Err(Errno::NotFound),
    }
}

/// The state after a request for a name in a directory.
pub open spec fn after_lookup(fs: FsView, parent: u64, name: Option<Seq<char>>) -> FsView {
    match lookup_path(fs, parent, name) {
        Some(path) => FsView { paths: registered(fs.paths, path), ..fs },
        None => fs,
    }
}

impl NotionFS {
    /// The attributes of a directory.
    fn dir_attr(&self, ino: u64) -> (attr: NodeAttr)
        ensures
            attr == dir_attr_of(self@, ino),
    {
        NodeAttr {
            ino,
            size: 0,
            blocks: 0,
            kind: FileKind::Directory,
            perm: 0o555,
            nlink: 2,
            uid: self.uid,
            gid: self.gid,
            rdev: 0,
            blksize: BLOCK_SIZE,
            flags: 0,
        }
    }

    /// The attributes of a file.
    fn file_attr(&self, ino: u64) -> (attr: NodeAttr)
        ensures
            attr == file_attr_of(self@, ino),
    {
        NodeAttr {
            ino,
            size: 4096,
            blocks: 1,
            kind: FileKind::RegularFile,
            perm: 0o444,
            nlink: 1,
            uid: self.uid,
            gid: self.gid,
            rdev: 0,
            blksize: BLOCK_SIZE,
            flags: 0,
        }
    }

    /// Looks a name up in a directory. A name that is no Unicode text is given as `None`.
    pub fn lookup(&mut self, parent: u64, name: Option<&str>) -> (answer: Result<NodeAttr, Errno>)
        ensures
            answer == lookup_answer(old(self)@, parent, optional_text(name)),
            final(self)@ == after_lookup(old(self)@, parent, optional_text(name)),
    {
        let parent_path = match self.get_path(parent) {
            Some(path) => path,
            None => {
                return Err(Errno::NotFound);
            },
        };
        let child_name = match name {
            Some(child) => child,
            None => {
                return Err(Errno::NotFound);
            },
        };
        let child_path = join(parent_path.as_str(), child_name);
        let parts = path_parts(child_path.as_str());
        let tree = self.cache.get_tree();
        if !path_exists_in(&*tree, &parts) {
            return Err(Errno::NotFound);
        }
        let ino = self.register_ino(child_path.as_str());
        if is_dir(&parts) {
            Ok(self.dir_attr(ino))
        } else {
            Ok(self.file_attr(ino))
        }
    }

    /// The attributes of an inode.
    pub fn getattr(&self, ino: u64) -> (answer: Result<NodeAttr, Errno>)
        ensures
            answer == getattr_answer(self@, ino),
    {
        let path = match self.get_path(ino) {
            Some(path) => path,
            None => {
                return Err(Errno::NotFound);
            },
        };
        let parts = path_parts(path.as_str());
        let tree = self.cache.get_tree();
        if !path_exists_in(&*tree, &parts) {
            return Err(Errno::NotFound);
        }
        if is_dir(&parts) {
            Ok(self.dir_attr(ino))
        } else {
            Ok(self.file_attr(ino))
        }
    }
}

/// What a lookup gives out, the attributes of its inode confirm, unless the inode is already that
/// of another path with the same hash.
pub proof fn law_lookup_then_getattr(fs: FsView, parent: u64, name: Option<Seq<char>>)
    requires
        lookup_path(fs, parent, name) matches Some(path) && (fs.paths.contains_key(ino_of(path))
            ==> components_of(fs.paths[ino_of(path)]) == components_of(path)),
    ensures
        ({
            let answer = lookup_answer(fs, parent, name);
            let after = after_lookup(fs, parent, name);
            answer is Ok && getattr_answer(after, answer->Ok_0.ino) == answer
        }),
{
    let path = lookup_path(fs, parent, name)->0;
    if fs.paths.contains_key(ino_of(path)) {
        law_same_path_has_same_names(fs.paths[ino_of(path)], path);
    }
}

// ---------------------------------------------------------------------------
// Directories
// ---------------------------------------------------------------------------

/// The rows of a directory: itself, its parent, then what it lists.
pub open spec fn dir_rows(fs: FsView, path: Seq<char>) -> Seq<(Seq<char>, FileKind)> {
    seq![("."@, FileKind::Directory), (".."@, FileKind::Directory)] + listing(
        fs.cache.held.tree,
        parts_of(path),
    )
}

/// The path of an entry of a directory.
pub open spec fn entry_path(path: Seq<char>, name: Seq<char>) -> Seq<char> {
    if name == "."@ {
        path
    } else if name == ".."@ {
        parent_of(path)
    } else {
        joined(path, name)
    }
}

/// The paths of some entries of a directory.
pub open spec fn entry_paths(
    path: Seq<char>,
    rows: Seq<(Seq<char>, FileKind)>,
) -> Seq<Seq<char>> {
    rows.map_values(|row: (Seq<char>, FileKind)| entry_path(path, row.0))
}

/// All entries of a directory.
pub open spec fn dir_entries(fs: FsView, path: Seq<char>) -> Seq<DirEntryView> {
    dir_rows(fs, path).map(
        |i: int, row: (Seq<char>, FileKind)|
            DirEntryView {
                ino: ino_of(entry_path(path, row.0)),
                next: (i + 1) as u64,
                kind: row.1,
                name: row.0,
            },
    )
}

/// What is left of a sequence behind an offset.
pub open spec fn behind<A>(all: Seq<A>, offset: nat) -> Seq<A> {
    if offset <= all.len() {
        all.skip(offset as int)
    } else {
        Seq::empty()
    }
}

/// Why a directory cannot be listed, if it cannot.
pub open spec fn readdir_error(fs: FsView, ino: u64) -> Option<Errno> {
    if !fs.paths.contains_key(ino) {
        Some(Errno::NotFound)
    } else if parts_of(fs.paths[ino]).len() > 3 {
        Some(Errno::NotDirectory)
    } else {
        None
    }
}

/// The state after a directory was listed: all its entries have their inodes.
pub open spec fn after_readdir(fs: FsView, ino: u64) -> FsView {
    if readdir_error(fs, ino) is None {
        let path = fs.paths[ino];
        FsView { paths: registered_all(fs.paths, entry_paths(path, dir_rows(fs, path))), ..fs }
    } else {
        fs
    }
}

/// The path of an entry of a directory.
fn path_of_entry(path: &str, name: &str) -> (child: String)
    ensures
        child@ == entry_path(path@, name@),
{
    if same_text(name, ".") {
        path.to_string()
    } else if same_text(name, "..") {
        parent(path)
    } else {
        join(path, name)
    }
}

impl NotionFS {
    /// Lists a directory from an offset on.
    pub fn readdir(&mut self, ino: u64, offset: u64) -> (answer: Result<Vec<DirEntry>, Errno>)
        ensures
            final(self)@ == after_readdir(old(self)@, ino),
            match answer {
                Ok(entries) => readdir_error(old(self)@, ino) is None && entries_of(entries@)
                    == behind(dir_entries(old(self)@, old(self)@.paths[ino]), offset as nat),
                Err(e) => readdir_error(old(self)@, ino) == Some(e),
            },
    {
        let path = match self.get_path(ino) {
            Some(path) => path,
            None => {
                return Err(Errno::NotFound);
            },
        };
        let parts = path_parts(path.as_str());
        if parts.len() > 3 {
            return Err(Errno::NotDirectory);
        }
        let tree = self.cache.get_tree();
        let listed = list_directory(&*tree, &parts);
        let mut rows: Vec<DirRow> = Vec::new();
        rows.push(DirRow { name: ".".to_string(), kind: FileKind::Directory });
        rows.push(DirRow { name: "..".to_string(), kind: FileKind::Directory });
        let ghost head = rows_of(rows@);
        let ghost tail = rows_of(listed@);
        let mut listed = listed;
        rows.append(&mut listed);
        assert(rows_of(rows@) == head + tail);
        let ghost before = self@;
        let ghost all = dir_rows(before, path@);
        let ghost wanted = dir_entries(before, path@);
        assert(rows_of(rows@) == all);
        let mut entries: Vec<DirEntry> = Vec::new();
        let mut i: usize = 0;
        assert(entries_of(entries@) == behind(wanted.take(0), offset as nat));
        while i < rows.len()
            invariant
                i <= rows@.len(),
                rows_of(rows@) == all,
                all == dir_rows(before, path@),
                wanted == dir_entries(before, path@),
                self@ == (FsView {
                    paths: registered_all(
                        before.paths,
                        entry_paths(path@, all).take(i as int),
                    ),
                    ..before
                }),
                entries_of(entries@) == behind(wanted.take(i as int), offset as nat),
            decreases rows@.len() - i,
        {
            let row = &rows[i];
            assert(row@ == all[i as int]);
            let child = path_of_entry(path.as_str(), row.name.as_str());
            let ino = self.register_ino(child.as_str());
            proof {
                let paths = entry_paths(path@, all);
                assert(paths[i as int] == child@);
                assert(paths.take(i + 1).drop_last() == paths.take(i as int));
            }
            let next = i as u64 + 1;
            if i as u64 >= offset {
                let ghost so_far = entries_of(entries@);
                let entry = DirEntry { ino, next, kind: row.kind, name: row.name.clone() };
                assert(entry@ == wanted[i as int]);
                entries.push(entry);
                assert(entries_of(entries@) == so_far.push(entry@));
                assert(behind(wanted.take(i + 1), offset as nat) == so_far.push(
                    wanted[i as int],
                ));
            } else {
                assert(behind(wanted.take(i + 1), offset as nat) =~= behind(
                    wanted.take(i as int),
                    offset as nat,
                ));
            }
            i = i + 1;
        }
        proof {
            let paths = entry_paths(path@, all);
            assert(paths.take(paths.len() as int) == paths);
            assert(wanted.take(wanted.len() as int) == wanted);
        }
        Ok(entries)
    }
}

/// A listing that is resumed behind an entry goes on with the entry after it: no entry comes twice
/// and none is left out.
pub proof fn law_listing_resumes(fs: FsView, path: Seq<char>, offset: nat)
    requires
        offset < dir_entries(fs, path).len(),
        dir_entries(fs, path).len() <= u64::MAX,
    ensures
        ({
            let rest = behind(dir_entries(fs, path), offset);
            rest.len() > 0 && rest.drop_first() == behind(
                dir_entries(fs, path),
                rest.first().next as nat,
            )
        }),
{
    let rest = behind(dir_entries(fs, path), offset);
    assert(rest.first() == dir_entries(fs, path)[offset as int]);
    assert(rest.drop_first() =~= behind(dir_entries(fs, path), rest.first().next as nat));
}

/// Whatever a directory lists can be looked up in it, with the inode and the kind that it is
/// listed with. Entries whose name is no single part of a path cannot be asked for.
pub proof fn law_listed_entries_are_found(fs: FsView, ino: u64, i: int)
    requires
        in_order(fs.cache.held),
        readdir_error(fs, ino) is None,
        2 <= i < dir_entries(fs, fs.paths[ino]).len(),
        is_name(dir_entries(fs, fs.paths[ino])[i].name),
    ensures
        ({
            let entry = dir_entries(fs, fs.paths[ino])[i];
            let answer = lookup_answer(fs, ino, Some(entry.name));
            &&& answer is Ok
            &&& answer->Ok_0.ino == entry.ino
            &&& answer->Ok_0.kind == entry.kind
        }),
{
    let tree = fs.cache.held.tree;
    let path = fs.paths[ino];
    let parts = parts_of(path);
    let rows = listing(tree, parts);
    let entry = dir_entries(fs, path)[i];
    let row = rows[i - 2];
    lemma_listing_exists(tree, parts);
    assert(entry.name == row.0 && entry.kind == row.1);
    if parts.len() == 1 && row == (REFRESH_FILE@, FileKind::Directory) {
        assert(rows.contains(row));
        assert(lists(tree, parts, row));
        assert(fs.cache.held.slug_map.contains_key(row.0));
        law_collapse_is_slug(base_letters(fs.cache.held.slug_map[row.0]));
        reveal_strlit(".refresh");
        assert(slug_char(row.0[0]));
    }
    law_listed_entries_exist(tree, parts, rows, i - 2);
    law_child_has_one_more_part(path, entry.name);
    assert(entry.name != "."@ && entry.name != ".."@) by {
        assert(named(entry.name).len() == 1);
    }
}

/// Whatever can be looked up in a directory by a single name is listed there, with the kind that
/// it is found with.
pub proof fn law_found_entries_are_listed(fs: FsView, ino: u64, name: Seq<char>)
    requires
        in_order(fs.cache.held),
        readdir_error(fs, ino) is None,
        is_name(name),
        lookup_answer(fs, ino, Some(name)) is Ok,
    ensures
        dir_rows(fs, fs.paths[ino]).contains(
            (name, lookup_answer(fs, ino, Some(name))->Ok_0.kind),
        ),
{
    let tree = fs.cache.held.tree;
    let path = fs.paths[ino];
    let parts = parts_of(path);
    let rows = listing(tree, parts);
    let kind = lookup_answer(fs, ino, Some(name))->Ok_0.kind;
    lemma_listing_exists(tree, parts);
    law_child_has_one_more_part(path, name);
    law_existing_entries_are_listed(tree, parts, rows, name);
    let k = choose|k: int| 0 <= k < rows.len() && rows[k] == (name, kind);
    assert(dir_rows(fs, path)[k + 2] == rows[k]);
}

// ---------------------------------------------------------------------------
// Files
// ---------------------------------------------------------------------------

/// The part of some data that a read asks for: from an offset, no more than a size.
pub open spec fn window(data: Seq<u8>, offset: nat, size: nat) -> Seq<u8> {
    if offset >= data.len() {
        Seq::empty()
    } else if offset + size <= data.len() {
        data.subrange(offset as int, (offset + size) as int)
    } else {
        data.skip(offset as int)
    }
}

/// Reads that follow each other read what one longer read does.
pub proof fn law_windows_join(data: Seq<u8>, offset: nat, size: nat, more: nat)
    ensures
        window(data, offset, size) + window(data, offset + size, more) == window(
            data,
            offset,
            size + more,
        ),
        data.len() <= size ==> window(data, 0, size) == data,
{
    assert(window(data, offset, size) + window(data, offset + size, more) =~= window(
        data,
        offset,
        size + more,
    ));
    assert(data.len() <= size ==> window(data, 0, size) =~= data);
}

/// What a ticket's file holds.
pub open spec fn render_of(ticket: TicketView) -> Seq<u8> {
    encode_utf8(ticket_text(ticket))
}

/// What a file that can be read is.
pub enum Target {
    /// No such file.
    Nothing,
    /// The `.refresh` file of a project.
    RefreshFile { project: Seq<char> },
    /// The file of a ticket, with the parts of its path.
    TicketFile { parts: Seq<Seq<char>>, ticket: TicketView },
}

/// The file that an inode stands for.
pub open spec fn target_of(fs: FsView, ino: u64) -> Target {
    let parts = parts_of(fs.paths[ino]);
    if !fs.paths.contains_key(ino) {
        Target::Nothing
    } else if parts.len() == 2 && parts[1] == REFRESH_FILE@ {
        Target::RefreshFile { project: parts[0] }
    } else if parts.len() == 4 {
        match ticket_file(fs.cache.held.tree, parts[0], parts[1], parts[2], parts[3]) {
            Some(ticket) => Target::TicketFile { parts, ticket },
            None => Target::Nothing,
        }
    } else {
        Target::Nothing
    }
}

/// What the last refresh of a project reported.
pub open spec fn report_of(fs: FsView, project: Seq<char>) -> Seq<u8> {
    if fs.refresh_buf.contains_key(project) {
        fs.refresh_buf[project]
    } else {
        Seq::empty()
    }
}

/// A refresh of a project that a read asks for.
#[derive(Debug)]
pub struct RefreshRequest {
    /// The directory of the project.
    pub project: String,
    /// The name by which the project is refreshed.
    pub name: String,
    /// How much of the report is to be read.
    pub size: u32,
}

/// What a refresh request holds.
#[verifier::ext_equal]
pub struct RefreshRequestView {
    pub project: Seq<char>,
    pub name: Seq<char>,
    pub size: u32,
}

impl View for RefreshRequest {
    type V = RefreshRequestView;

    open spec fn view(&self) -> RefreshRequestView {
        RefreshRequestView { project: self.project@, name: self.name@, size: self.size }
    }
}

/// A read of a ticket's file that waits for the ticket's description.
#[derive(Debug)]
pub struct PendingRead {
    pub project: String,
    pub assignee: String,
    pub status: String,
    pub file: String,
    pub ticket: Ticket,
    pub offset: u64,
    pub size: u32,
}

/// What a pending read holds.
#[verifier::ext_equal]
pub struct PendingReadView {
    pub project: Seq<char>,
    pub assignee: Seq<char>,
    pub status: Seq<char>,
    pub file: Seq<char>,
    pub ticket: TicketView,
    pub offset: u64,
    pub size: u32,
}

impl View for PendingRead {
    type V = PendingReadView;

    open spec fn view(&self) -> PendingReadView {
        PendingReadView {
            project: self.project@,
            assignee: self.assignee@,
            status: self.status@,
            file: self.file@,
            ticket: self.ticket@,
            offset: self.offset,
            size: self.size,
        }
    }
}

/// How a read goes on.
#[derive(Debug)]
pub enum ReadStep {
    /// The read fails.
    Fail(Errno),
    /// The read gives this data.
    Data(Vec<u8>),
    /// The project is to be refreshed first.
    Refresh(RefreshRequest),
    /// The description of the ticket's page is to be fetched first.
    Fetch(PendingRead),
}

/// How a read goes on, over texts.
#[verifier::ext_equal]
pub enum ReadStepView {
    Fail(Errno),
    Data(Seq<u8>),
    Refresh(RefreshRequestView),
    Fetch(PendingReadView),
}

impl View for ReadStep {
    type V = ReadStepView;

    open spec fn view(&self) -> ReadStepView {
        match self {
            ReadStep::Fail(e) => ReadStepView::Fail(*e),
            ReadStep::Data(data) => ReadStepView::Data(data@),
            ReadStep::Refresh(request) => ReadStepView::Refresh(request@),
            ReadStep::Fetch(pending) => ReadStepView::Fetch(pending@),
        }
    }
}

/// How a read goes on. A read of a `.refresh` file from its start refreshes the project, and a read
/// behind its start gives what the last refresh reported. The file of a ticket is rendered once;
/// a ticket without a description has it fetched first.
pub open spec fn read_step(fs: FsView, ino: u64, offset: u64, size: u32) -> ReadStepView {
    match target_of(fs, ino) {
        Target::Nothing => ReadStepView::Fail(Errno::NotFound),
        Target::RefreshFile { project } => if offset == 0 {
            ReadStepView::Refresh(
                RefreshRequestView { project, name: project_name_of(fs.cache, project), size },
            )
        } else {
            ReadStepView::Data(window(report_of(fs, project), offset as nat, size as nat))
        },
        Target::TicketFile { parts, ticket } => if fs.rendered.contains_key(ticket.page_id) {
            ReadStepView::Data(
                window(fs.rendered[ticket.page_id], offset as nat, size as nat),
            )
        } else if ticket.description.len() == 0 {
            ReadStepView::Fetch(
                PendingReadView {
                    project: parts[0],
                    assignee: parts[1],
                    status: parts[2],
                    file: parts[3],
                    ticket,
                    offset,
                    size,
                },
            )
        } else {
            ReadStepView::Data(window(render_of(ticket), offset as nat, size as nat))
        },
    }
}

/// The state after the first step of a read: a ticket that has a description is rendered.
pub open spec fn after_read_step(fs: FsView, ino: u64) -> FsView {
    match target_of(fs, ino) {
        Target::TicketFile { parts, ticket } => if !fs.rendered.contains_key(ticket.page_id)
            && ticket.description.len() > 0 {
            FsView {
                rendered: fs.rendered.insert(ticket.page_id, render_of(ticket)),
                ..fs
            }
        } else {
            fs
        },
        _ => fs,
    }
}

/// Copies the part of some data that a read asks for.
fn read_window(data: &Vec<u8>, offset: u64, size: u32) -> (part: Vec<u8>)
    ensures
        part@ == window(data@, offset as nat, size as nat),
{
    let mut part: Vec<u8> = Vec::new();
    let len = data.len();
    if offset >= len as u64 {
        return part;
    }
    let start = offset as usize;
    let left = len - start;
    let n = if (size as u64) < left as u64 {
        size as usize
    } else {
        left
    };
    let mut i: usize = 0;
    while i < n
        invariant
            i <= n,
            start + n <= len == data@.len(),
            part@ == data@.subrange(start as int, start + i),
        decreases n - i,
    {
        part.push(data[start + i]);
        i = i + 1;
    }
    assert(part@ =~= window(data@, offset as nat, size as nat));
    part
}

impl NotionFS {
    /// Begins to read a file from an offset.
    pub fn read(&mut self, ino: u64, offset: u64, size: u32) -> (step: ReadStep)
        ensures
            step@ == read_step(old(self)@, ino, offset, size),
            final(self)@ == after_read_step(old(self)@, ino),
    {
        let path = match self.get_path(ino) {
            Some(path) => path,
            None => {
                return ReadStep::Fail(Errno::NotFound);
            },
        };
        let mut parts = path_parts(path.as_str());
        let ghost texts = parts_of(path@);
        assert(texts.len() == parts@.len());
        assert(forall|i: int| 0 <= i < parts@.len() ==> texts[i] == (#[trigger] parts@[i])@);
        if parts.len() == 2 && same_text(parts[1].as_str(), REFRESH_FILE) {
            let project = parts.swap_remove(0);
            if offset == 0 {
                let name = self.cache.project_name(project.as_str());
                return ReadStep::Refresh(RefreshRequest { project, name, size });
            }
            return match self.refresh_buf.get(project.as_str()) {
                Some(report) => {
                    assert(report.deep_view() =~= report@);
                    ReadStep::Data(read_window(report, offset, size))
                },
                None => ReadStep::Data(Vec::new()),
            };
        }
        if parts.len() != 4 {
            return ReadStep::Fail(Errno::NotFound);
        }
        let tree = self.cache.get_tree();
        let ticket = match find_ticket(
            &*tree,
            parts[0].as_str(),
            parts[1].as_str(),
            parts[2].as_str(),
            parts[3].as_str(),
        ) {
            Some(ticket) => ticket.clone(),
            None => {
                return ReadStep::Fail(Errno::NotFound);
            },
        };
        if let Some(data) = self.rendered.get(ticket.page_id.as_str()) {
            assert(data.deep_view() =~= data@);
            return ReadStep::Data(read_window(data, offset, size));
        }
        if ticket.description.as_str().is_empty() {
            let file = parts.swap_remove(3);
            let status = parts.swap_remove(2);
            let assignee = parts.swap_remove(1);
            let project = parts.swap_remove(0);
            return ReadStep::Fetch(
                PendingRead { project, assignee, status, file, ticket, offset, size },
            );
        }
        let data = ticket.render();
        let part = read_window(&data, offset, size);
        assert(data.deep_view() =~= data@);
        self.rendered.insert(ticket.page_id, data);
        ReadStep::Data(part)
    }
}

// ---------------------------------------------------------------------------
// Finishing a read
// ---------------------------------------------------------------------------

/// A ticket with a description.
pub open spec fn with_text(ticket: TicketView, description: Seq<char>) -> TicketView {
    TicketView { description, ..ticket }
}

/// The state after a ticket's description came in: the tree keeps the description, and the ticket
/// is rendered with it.
pub open spec fn after_fetch(fs: FsView, pending: PendingReadView, description: Seq<char>) -> FsView {
    FsView {
        cache: described(
            fs.cache,
            pending.project,
            pending.assignee,
            pending.status,
            pending.file,
            pending.ticket.page_id,
            description,
        ),
        rendered: fs.rendered.insert(
            pending.ticket.page_id,
            render_of(with_text(pending.ticket, description)),
        ),
        ..fs
    }
}

/// What a read that waited for a description comes to.
pub struct ReadReply {
    /// What the read gives.
    pub data: Result<Vec<u8>, Errno>,
    /// The file of the disk cache to write, and the tickets that it is to hold.
    pub file: Option<(String, Vec<Ticket>)>,
}

/// Whether every project that a refresh asks the API for has its pages.
pub open spec fn all_answered(
    cache: CacheView,
    name: Seq<char>,
    pages: Map<Seq<char>, Seq<Json>>,
) -> bool {
    forall|i: int|
        0 <= i < refresh_requests(cache.projects, Some(name)).len() ==> pages.contains_key(
            (#[trigger] refresh_requests(cache.projects, Some(name))[i]).0,
        )
}

/// What a refresh reports.
pub open spec fn report_text(name: Seq<char>, count: nat) -> Seq<char> {
    "Refreshed "@ + name + ": "@ + decimal(count) + " tickets\n"@
}

/// The state after a refresh: the project is renewed, its report is kept for further reads, and
/// nothing that was rendered is kept.
pub open spec fn after_refresh(
    fs: FsView,
    request: RefreshRequestView,
    pages: Map<Seq<char>, Seq<Json>>,
) -> FsView {
    let held = refreshed(fs.cache, Some(request.name), pages);
    FsView {
        cache: CacheView { held, ..fs.cache },
        rendered: Map::empty(),
        refresh_buf: fs.refresh_buf.insert(
            request.project,
            encode_utf8(report_text(request.name, tree_count(held.tree))),
        ),
        ..fs
    }
}

/// What a read of a `.refresh` file comes to.
pub struct RefreshReply {
    /// What the read gives.
    pub data: Result<Vec<u8>, Errno>,
    /// The files of the disk cache to write, each with the tickets that it is to hold.
    pub files: Dict<Vec<Ticket>>,
}

/// Whether a read of a `.refresh` file came to its end: the project is renewed, the read gives the
/// beginning of the report, and the files to write are those of the renewed projects, the file of
/// the directory itself holding the directory's tickets.
pub open spec fn refresh_done(
    before: FsView,
    after: FsView,
    request: RefreshRequestView,
    pages: Map<Seq<char>, Seq<Json>>,
    reply: RefreshReply,
) -> bool {
    let dir = after.cache.cache_dir;
    let saved = saved_files(dir, page_batches(after.cache.projects, Some(request.name), pages));
    let path = cache_path(dir->0, request.project);
    &&& after == after_refresh(before, request, pages)
    &&& reply.data is Ok
    &&& reply.data->Ok_0@ == window(after.refresh_buf[request.project], 0, request.size as nat)
    &&& if dir is Some && after.cache.held.tree.contains_key(request.project) {
        &&& reply.files@.remove(path) == saved.remove(path)
        &&& reply.files@.contains_key(path)
        &&& project_tree(reply.files@[path]) == after.cache.held.tree[request.project]
    } else {
        reply.files@ == saved
    }
}

/// Whether a read of a `.refresh` file failed: nothing changed and nothing is to be written.
pub open spec fn refresh_failed(before: FsView, after: FsView, reply: RefreshReply) -> bool {
    &&& after == before
    &&& reply.data == Err::<Vec<u8>, Errno>(Errno::Io)
    &&& reply.files@ == Map::<Seq<char>, Seq<TicketView>>::empty()
}

/// What a refresh reports.
fn report(name: &str, count: usize) -> (text: String)
    ensures
        text@ == report_text(name@, count as nat),
{
    let mut text = "Refreshed ".to_string();
    text.push_str(name);
    text.push_str(": ");
    push_decimal(&mut text, count as u64);
    text.push_str(" tickets\n");
    text
}

impl NotionFS {
    /// Finishes a read that waited for a description, given the description, or `None` where the
    /// API failed. A failed fetch fails the read and changes nothing.
    pub fn finish_read(&mut self, pending: PendingRead, fetched: Option<String>) -> (reply: ReadReply)
        ensures
            match fetched {
                Some(description) => {
                    let after = after_fetch(old(self)@, pending@, description@);
                    &&& final(self)@ == after
                    &&& reply.data is Ok
                    &&& reply.data->Ok_0@ == window(
                        render_of(with_text(pending.ticket@, description@)),
                        pending.offset as nat,
                        pending.size as nat,
                    )
                    &&& reply.file is Some <==> after.cache.cache_dir is Some
                        && after.cache.held.tree.contains_key(pending.project@)
                    &&& reply.file matches Some((path, tickets)) ==> path@ == cache_path(
                        after.cache.cache_dir->0,
                        pending.project@,
                    ) && project_tree(tickets.deep_view())
                        == after.cache.held.tree[pending.project@]
                },
                None => final(self)@ == old(self)@ && reply.data == Err::<Vec<u8>, Errno>(
                    Errno::Io,
                ) && reply.file is None,
            },
    {
        let description = match fetched {
            Some(description) => description,
            None => {
                return ReadReply { data: Err(Errno::Io), file: None };
            },
        };
        self.cache.store_description(
            pending.project.as_str(),
            pending.assignee.as_str(),
            pending.status.as_str(),
            pending.file.as_str(),
            pending.ticket.page_id.as_str(),
            description.clone(),
        );
        let mut ticket = pending.ticket;
        ticket.description = description;
        let data = ticket.render();
        let part = read_window(&data, pending.offset, pending.size);
        assert(data.deep_view() =~= data@);
        self.rendered.insert(ticket.page_id, data);
        let file = self.cache.save_project_cache(pending.project.as_str());
        ReadReply { data: Ok(part), file }
    }

    /// Whether every project that a refresh asks the API for has its pages.
    fn is_answered(&self, name: &str, pages: &Dict<Vec<Json>>) -> (r: bool)
        ensures
            r == all_answered(self@.cache, name@, pages@),
    {
        let requests = self.cache.projects_to_refresh(Some(name));
        let ghost wanted = refresh_requests(self@.cache.projects, Some(name@));
        assert(pairs_of(requests@) == wanted);
        let mut i: usize = 0;
        while i < requests.len()
            invariant
                i <= requests@.len(),
                pairs_of(requests@) == wanted,
                wanted == refresh_requests(self@.cache.projects, Some(name@)),
                forall|j: int| 0 <= j < i ==> pages@.contains_key((#[trigger] wanted[j]).0),
            decreases requests@.len() - i,
        {
            assert(wanted[i as int].0 == requests@[i as int].0@);
            if !pages.contains_key(requests[i].0.as_str()) {
                return false;
            }
            i = i + 1;
        }
        assert(wanted.len() == requests@.len());
        true
    }

    /// Finishes a read of a `.refresh` file, given the pages of the projects that the refresh asks
    /// the API for. Where the API failed for any of them, the read fails and nothing changes.
    pub fn finish_refresh(
        &mut self,
        request: &RefreshRequest,
        pages: &Dict<Vec<Json>>,
    ) -> (reply: RefreshReply)
        requires
            tree_count(refreshed(old(self)@.cache, Some(request.name@), pages@).tree)
                <= usize::MAX,
        ensures
            if all_answered(old(self)@.cache, request.name@, pages@) {
                refresh_done(old(self)@, final(self)@, request@, pages@, reply)
            } else {
                refresh_failed(old(self)@, final(self)@, reply)
            },
    {
        if !self.is_answered(request.name.as_str(), pages) {
            return RefreshReply { data: Err(Errno::Io), files: Dict::new() };
        }
        let done = self.cache.refresh(Some(request.name.as_str()), pages);
        let message = report(request.name.as_str(), done.total);
        let bytes = message.as_str().as_bytes_vec();
        let part = read_window(&bytes, 0, request.size);
        let mut files = done.files;
        let ghost saved = files@;
        if let Some((path, tickets)) = self.cache.save_project_cache(request.project.as_str()) {
            files.insert(path, tickets);
            assert(files@.remove(path@) =~= saved.remove(path@));
        }
        assert(bytes.deep_view() =~= bytes@);
        self.refresh_buf.insert(request.project.clone(), bytes);
        self.rendered = Dict::new();
        RefreshReply { data: Ok(part), files }
    }

    /// Finishes a read of a `.refresh` file, given the pages of the projects that the refresh asks
    /// the API for. Where the API failed for any of them, or where there are too many tickets to be
    /// counted, the read fails and nothing changes.
    pub fn answer_refresh(
        &mut self,
        request: &RefreshRequest,
        pages: &Dict<Vec<Json>>,
    ) -> (reply: RefreshReply)
        ensures
            if all_answered(old(self)@.cache, request.name@, pages@) && room_for(
                old(self)@.cache,
                Some(request.name@),
                pages@,
            ) {
                refresh_done(old(self)@, final(self)@, request@, pages@, reply)
            } else {
                refresh_failed(old(self)@, final(self)@, reply)
            },
    {
        if !self.cache.has_room(Some(request.name.as_str()), pages) {
            return RefreshReply { data: Err(Errno::Io), files: Dict::new() };
        }
        self.finish_refresh(request, pages)
    }
}

/// Whatever is requested, an inode that was given out keeps its path.
pub proof fn law_inodes_are_permanent(
    fs: FsView,
    ino: u64,
    name: Option<Seq<char>>,
    pending: PendingReadView,
    description: Seq<char>,
    request: RefreshRequestView,
    pages: Map<Seq<char>, Seq<Json>>,
)
    ensures
        inodes_kept(fs.paths, after_lookup(fs, ino, name).paths),
        inodes_kept(fs.paths, after_readdir(fs, ino).paths),
        inodes_kept(fs.paths, after_read_step(fs, ino).paths),
        inodes_kept(fs.paths, after_fetch(fs, pending, description).paths),
        inodes_kept(fs.paths, after_refresh(fs, request, pages).paths),
{
    if readdir_error(fs, ino) is None {
        let path = fs.paths[ino];
        lemma_registered_all(fs.paths, entry_paths(path, dir_rows(fs, path)));
    }
}

/// A ticket's file reads the same after its description was fetched as it did then: every further
/// read, from any offset, gives a part of the same rendering.
pub proof fn law_fetched_ticket_stays_readable(
    fs: FsView,
    ino: u64,
    first: (u64, u32),
    description: Seq<char>,
    further: (u64, u32),
)
    requires
        in_order(fs.cache.held),
        read_step(fs, ino, first.0, first.1) is Fetch,
    ensures
        ({
            let pending = read_step(fs, ino, first.0, first.1)->Fetch_0;
            let after = after_fetch(fs, pending, description);
            &&& read_step(after, ino, further.0, further.1) == ReadStepView::Data(
                window(
                    render_of(with_text(pending.ticket, description)),
                    further.0 as nat,
                    further.1 as nat,
                ),
            )
            &&& after_read_step(after, ino) == after
        }),
{
    let pending = read_step(fs, ino, first.0, first.1)->Fetch_0;
    law_description_changes_nothing_else(
        fs.cache.held.tree,
        pending.project,
        pending.assignee,
        pending.status,
        pending.file,
        pending.ticket.page_id,
        description,
    );
}

/// A description that was fetched and saved is not fetched again: a later file system whose project
/// is as it was saved renders the ticket with it at once.
pub proof fn law_saved_description_is_not_fetched_again(
    fs: FsView,
    ino: u64,
    first: (u64, u32),
    description: Seq<char>,
    later: FsView,
    further: (u64, u32),
)
    requires
        in_order(fs.cache.held),
        read_step(fs, ino, first.0, first.1) is Fetch,
        description.len() > 0,
        later.paths.contains_key(ino),
        later.paths[ino] == fs.paths[ino],
        ({
            let pending = read_step(fs, ino, first.0, first.1)->Fetch_0;
            let saved = after_fetch(fs, pending, description).cache.held.tree;
            &&& later.cache.held.tree.contains_key(pending.project)
            &&& later.cache.held.tree[pending.project] == saved[pending.project]
            &&& !later.rendered.contains_key(pending.ticket.page_id)
        }),
    ensures
        read_step(later, ino, further.0, further.1) == ReadStepView::Data(
            window(
                render_of(
                    with_text(
                        read_step(fs, ino, first.0, first.1)->Fetch_0.ticket,
                        description,
                    ),
                ),
                further.0 as nat,
                further.1 as nat,
            ),
        ),
{
    let pending = read_step(fs, ino, first.0, first.1)->Fetch_0;
    law_description_changes_nothing_else(
        fs.cache.held.tree,
        pending.project,
        pending.assignee,
        pending.status,
        pending.file,
        pending.ticket.page_id,
        description,
    );
    let saved = after_fetch(fs, pending, description).cache.held.tree;
    assert(ticket_file(
        later.cache.held.tree,
        pending.project,
        pending.assignee,
        pending.status,
        pending.file,
    ) == ticket_file(
        saved,
        pending.project,
        pending.assignee,
        pending.status,
        pending.file,
    ));
}

/// A ticket whose description is known is not fetched again once it is rendered, and every read of
/// it gives a part of the same rendering.
pub proof fn law_rendered_ticket_stays_readable(
    fs: FsView,
    ino: u64,
    first: (u64, u32),
    further: (u64, u32),
)
    requires
        target_of(fs, ino) is TicketFile,
        read_step(fs, ino, first.0, first.1) is Data,
    ensures
        ({
            let ticket = target_of(fs, ino)->ticket;
            let after = after_read_step(fs, ino);
            let data = after.rendered[ticket.page_id];
            &&& read_step(fs, ino, first.0, first.1) == ReadStepView::Data(
                window(data, first.0 as nat, first.1 as nat),
            )
            &&& read_step(after, ino, further.0, further.1) == ReadStepView::Data(
                window(data, further.0 as nat, further.1 as nat),
            )
            &&& after_read_step(after, ino) == after
        }),
{
}

/// The report of a refresh can be read on behind its start, and reading on refreshes nothing.
pub proof fn law_report_stays_readable(
    fs: FsView,
    ino: u64,
    size: u32,
    pages: Map<Seq<char>, Seq<Json>>,
    further: (u64, u32),
)
    requires
        read_step(fs, ino, 0, size) is Refresh,
        further.0 > 0,
    ensures
        ({
            let request = read_step(fs, ino, 0, size)->Refresh_0;
            let after = after_refresh(fs, request, pages);
            &&& read_step(after, ino, further.0, further.1) == ReadStepView::Data(
                window(
                    after.refresh_buf[request.project],
                    further.0 as nat,
                    further.1 as nat,
                ),
            )
            &&& after_read_step(after, ino) == after
        }),
{
}

// ---------------------------------------------------------------------------
// A read-only file system
// ---------------------------------------------------------------------------

/// The requests that would change something.
#[derive(Clone, Copy, Debug, PartialEq, Eq, Structural)]
pub enum Change {
    Write,
    Setattr,
    Mkdir,
    Rmdir,
    Unlink,
    Rename,
    Create,
    Mknod,
    Symlink,
    Link,
}

impl NotionFS {
    /// Opens a file: for reading only. The flags are those of the request; the mask and the value
    /// of the read-only access mode are those of the system.
    pub fn open(&self, flags: i32, access_mask: i32, read_only: i32) -> (answer: Result<(), Errno>)
        ensures
            answer == if flags & access_mask == read_only {
                Ok::<(), Errno>(())
            } else {
                Err::<(), Errno>(Errno::ReadOnly)
            },
    {
        if flags & access_mask != read_only {
            return Err(Errno::ReadOnly);
        }
        Ok(())
    }

    /// Refuses a request that would change something, whatever it is.
    pub fn refuse(&self, _change: Change) -> (refusal: Errno)
        ensures
            refusal == Errno::ReadOnly,
    {
        Errno::ReadOnly
    }
}

// ---------------------------------------------------------------------------
// Laws of answers
// ---------------------------------------------------------------------------

/// A read gives the bytes from its offset on, as many as it asks for or as there are, each in its
/// place.
pub proof fn law_read_gives_the_bytes_asked_for(data: Seq<u8>, offset: nat, size: nat, i: int)
    ensures
        window(data, offset, size).len() == if offset >= data.len() {
            0
        } else if offset + size <= data.len() {
            size as int
        } else {
            data.len() - offset
        },
        0 <= i < window(data, offset, size).len() ==> window(data, offset, size)[i] == data[offset
            + i],
{
}

/// Registering a path gives it its inode, unless the inode is taken, and leaves all other inodes as
/// they are.
pub proof fn law_registering_adds_one_inode(paths: Map<u64, Seq<char>>, path: Seq<char>, ino: u64)
    ensures
        registered(paths, path).contains_key(ino_of(path)),
        !paths.contains_key(ino_of(path)) ==> registered(paths, path)[ino_of(path)] == path,
        paths.contains_key(ino_of(path)) ==> registered(paths, path) == paths,
        ino != ino_of(path) ==> registered(paths, path).contains_key(ino) == paths.contains_key(
            ino,
        ) && registered(paths, path)[ino] == paths[ino],
{
}

/// Registering some paths registers each of them, and no inode that is not that of one of them.
pub proof fn law_registering_all_registers_each(
    paths: Map<u64, Seq<char>>,
    more: Seq<Seq<char>>,
    i: int,
    ino: u64,
)
    ensures
        0 <= i < more.len() ==> registered_all(paths, more).contains_key(ino_of(more[i])),
        registered_all(paths, more).contains_key(ino) && !paths.contains_key(ino) ==> exists|
            j: int,
        |
            0 <= j < more.len() && ino_of(#[trigger] more[j]) == ino && registered_all(
                paths,
                more,
            )[ino] == more[j],
    decreases more.len(),
{
    if more.len() > 0 {
        let rest = more.drop_last();
        let last = more.len() - 1;
        law_registering_all_registers_each(paths, rest, i, ino);
        if 0 <= i < rest.len() {
            assert(rest[i] == more[i]);
        }
        if registered_all(paths, more).contains_key(ino) && !paths.contains_key(ino) {
            if registered_all(paths, rest).contains_key(ino) {
                let j = choose|j: int|
                    0 <= j < rest.len() && ino_of(#[trigger] rest[j]) == ino && registered_all(
                        paths,
                        rest,
                    )[ino] == rest[j];
                assert(more[j] == rest[j]);
            } else {
                assert(ino_of(more[last]) == ino);
            }
        }
    }
}

/// What stands at a path is shown as a directory that anyone may list or as a file that anyone may
/// read, and that nobody may change; it belongs to the user and group of the file system. The kernel
/// may keep the answer for one second.
pub proof fn law_attributes_are_read_only(fs: FsView, ino: u64, path: Seq<char>)
    ensures
        ({
            let attr = attr_at(fs, ino, path);
            &&& attr.ino == ino
            &&& attr.uid == fs.uid
            &&& attr.gid == fs.gid
            &&& attr.rdev == 0
            &&& attr.flags == 0
            &&& attr.blksize == 512
            &&& TTL_SECONDS == 1
            &&& directory_at(parts_of(path)) ==> attr.kind is Directory && attr.perm == 0o555
                && attr.size == 0 && attr.blocks == 0 && attr.nlink == 2
            &&& !directory_at(parts_of(path)) ==> attr.kind is RegularFile && attr.perm == 0o444
                && attr.size == 4096 && attr.blocks == 1 && attr.nlink == 1
        }),
{
}

/// An inode has attributes exactly where it has a path at which something stands, and they are those
/// of what stands there.
pub proof fn law_inodes_have_the_attributes_of_their_path(fs: FsView, ino: u64)
    ensures
        getattr_answer(fs, ino) is Ok <==> fs.paths.contains_key(ino) && exists_at(
            fs.cache.held.tree,
            parts_of(fs.paths[ino]),
        ),
        getattr_answer(fs, ino) matches Ok(attr) ==> attr == attr_at(fs, ino, fs.paths[ino]),
        getattr_answer(fs, ino) matches Err(e) ==> e is NotFound,
{
}

/// A name is found in a directory exactly where something stands at the directory's path with the
/// name behind it; what is found has the inode of that path, and the path is registered.
pub proof fn law_lookup_finds_what_stands_there(fs: FsView, parent: u64, name: Seq<char>)
    ensures
        ({
            let path = joined(fs.paths[parent], name);
            let found = fs.paths.contains_key(parent) && exists_at(
                fs.cache.held.tree,
                parts_of(path),
            );
            let answer = lookup_answer(fs, parent, Some(name));
            let after = after_lookup(fs, parent, Some(name));
            &&& answer is Ok <==> found
            &&& answer matches Ok(attr) ==> attr == attr_at(fs, ino_of(path), path)
            &&& answer matches Err(e) ==> e is NotFound
            &&& found ==> after == (FsView { paths: registered(fs.paths, path), ..fs })
            &&& !found ==> after == fs
        }),
        lookup_answer(fs, parent, None) == Err::<NodeAttr, Errno>(Errno::NotFound),
        after_lookup(fs, parent, None) == fs,
{
}

/// A directory lists itself, its parent, and then what is in it, each with the inode of its path and
/// with the number of the entry behind it.
pub proof fn law_entries_are_numbered(fs: FsView, path: Seq<char>, i: int)
    requires
        0 <= i < dir_entries(fs, path).len(),
        dir_entries(fs, path).len() <= u64::MAX,
    ensures
        ({
            let entries = dir_entries(fs, path);
            let rows = listing(fs.cache.held.tree, parts_of(path));
            &&& entries.len() == rows.len() + 2
            &&& entries[i].next == i + 1
            &&& entries[0].name == seq!['.'] && entries[0].kind is Directory && entries[0].ino
                == ino_of(path)
            &&& entries[1].name == seq!['.', '.'] && entries[1].kind is Directory
                && entries[1].ino == ino_of(parent_of(path))
            &&& i >= 2 ==> entries[i].name == rows[i - 2].0 && entries[i].kind == rows[i - 2].1
            &&& i >= 2 && entries[i].name != seq!['.'] && entries[i].name != seq!['.', '.']
                ==> entries[i].ino == ino_of(joined(path, entries[i].name))
        }),
{
    reveal_strlit(".");
    reveal_strlit("..");
    assert("."@ == seq!['.']);
    assert(".."@ == seq!['.', '.']);
    assert(seq!['.'].len() != seq!['.', '.'].len());
    let rows = listing(fs.cache.held.tree, parts_of(path));
    assert(dir_rows(fs, path)[0] == ("."@, FileKind::Directory));
    assert(dir_rows(fs, path)[1] == (".."@, FileKind::Directory));
    if i >= 2 {
        assert(dir_rows(fs, path)[i] == rows[i - 2]);
    }
}

/// A listing from an offset on leaves out as many entries as the offset says, and no others.
pub proof fn law_listing_begins_at_its_offset(all: Seq<DirEntryView>, offset: nat, i: int)
    ensures
        offset <= all.len() ==> behind(all, offset).len() == all.len() - offset,
        offset > all.len() ==> behind(all, offset).len() == 0,
        0 <= i < behind(all, offset).len() ==> behind(all, offset)[i] == all[offset + i],
{
}

/// Every path above the files can be listed, whatever stands there; a path of a file cannot, and
/// neither can an inode that has no path. A listing registers its entries and changes nothing else.
pub proof fn law_what_can_be_listed(fs: FsView, ino: u64)
    ensures
        !fs.paths.contains_key(ino) ==> readdir_error(fs, ino) == Some(Errno::NotFound),
        fs.paths.contains_key(ino) && parts_of(fs.paths[ino]).len() >= 4 ==> readdir_error(fs, ino)
            == Some(Errno::NotDirectory),
        fs.paths.contains_key(ino) && parts_of(fs.paths[ino]).len() < 4 ==> readdir_error(fs, ino)
            is None,
        readdir_error(fs, ino) is Some ==> after_readdir(fs, ino) == fs,
        ({
            let after = after_readdir(fs, ino);
            after == (FsView { paths: after.paths, ..fs })
        }),
{
}

/// Every entry that is listed has an inode that can be asked for, and a listing gives out no other
/// inode.
pub proof fn law_listed_entries_have_inodes(fs: FsView, ino: u64, i: int, given: u64)
    requires
        readdir_error(fs, ino) is None,
        0 <= i < dir_entries(fs, fs.paths[ino]).len(),
    ensures
        after_readdir(fs, ino).paths.contains_key(dir_entries(fs, fs.paths[ino])[i].ino),
        after_readdir(fs, ino).paths.contains_key(given) && !fs.paths.contains_key(given)
            ==> exists|j: int|
            0 <= j < dir_entries(fs, fs.paths[ino]).len() && (#[trigger] dir_entries(
                fs,
                fs.paths[ino],
            )[j]).ino == given,
{
    let path = fs.paths[ino];
    let more = entry_paths(path, dir_rows(fs, path));
    law_registering_all_registers_each(fs.paths, more, i, given);
    let after = after_readdir(fs, ino).paths;
    if after.contains_key(given) && !fs.paths.contains_key(given) {
        let j = choose|j: int|
            0 <= j < more.len() && ino_of(#[trigger] more[j]) == given && registered_all(
                fs.paths,
                more,
            )[given] == more[j];
        assert(dir_entries(fs, path)[j].ino == given);
    }
}

/// A ticket that is not rendered yet reads as its whole rendering where it has a description, which
/// is then kept; where it has none, its description is asked for first, and nothing changes.
pub proof fn law_read_of_a_ticket(
    fs: FsView,
    ino: u64,
    offset: u64,
    size: u32,
    ticket: TicketView,
)
    requires
        fs.paths.contains_key(ino),
        parts_of(fs.paths[ino]).len() == 4,
        ({
            let parts = parts_of(fs.paths[ino]);
            ticket_file(fs.cache.held.tree, parts[0], parts[1], parts[2], parts[3]) == Some(ticket)
        }),
    ensures
        ({
            let parts = parts_of(fs.paths[ino]);
            let step = read_step(fs, ino, offset, size);
            let after = after_read_step(fs, ino);
            let kept = fs.rendered.contains_key(ticket.page_id);
            let whole = encode_utf8(ticket_text(ticket));
            &&& kept ==> step == ReadStepView::Data(
                window(fs.rendered[ticket.page_id], offset as nat, size as nat),
            ) && after == fs
            &&& !kept && ticket.description.len() > 0 ==> step == ReadStepView::Data(
                window(whole, offset as nat, size as nat),
            ) && after == (FsView {
                rendered: fs.rendered.insert(ticket.page_id, whole),
                ..fs
            })
            &&& !kept && ticket.description.len() == 0 ==> after == fs && (step matches
                ReadStepView::Fetch(pending) && pending.project == parts[0] && pending.assignee
                == parts[1] && pending.status == parts[2] && pending.file == parts[3]
                && pending.ticket == ticket && pending.offset == offset && pending.size == size)
        }),
{
}

/// A read of a project's `.refresh` file from its start asks for a refresh of that project, by the
/// name that the project is refreshed by; a read behind its start gives what the last refresh
/// reported, or nothing. Neither changes anything by itself.
pub proof fn law_read_of_a_refresh_file(fs: FsView, ino: u64, offset: u64, size: u32)
    requires
        fs.paths.contains_key(ino),
        parts_of(fs.paths[ino]).len() == 2,
        parts_of(fs.paths[ino])[1] == seq!['.', 'r', 'e', 'f', 'r', 'e', 's', 'h'],
    ensures
        ({
            let project = parts_of(fs.paths[ino])[0];
            let step = read_step(fs, ino, offset, size);
            &&& after_read_step(fs, ino) == fs
            &&& offset == 0 ==> (step matches ReadStepView::Refresh(request) && request.project
                == project && request.name == project_name_of(fs.cache, project) && request.size
                == size)
            &&& offset > 0 && fs.refresh_buf.contains_key(project) ==> step == ReadStepView::Data(
                window(fs.refresh_buf[project], offset as nat, size as nat),
            )
            &&& offset > 0 && !fs.refresh_buf.contains_key(project) ==> step == ReadStepView::Data(
                Seq::empty(),
            )
        }),
{
    reveal_strlit(".refresh");
    assert(".refresh"@ == seq!['.', 'r', 'e', 'f', 'r', 'e', 's', 'h']);
    assert(REFRESH_FILE@ == ".refresh"@);
}

/// Nothing else can be read: not an inode without a path, nor a path of another depth, nor the path
/// of a ticket that is not there.
pub proof fn law_nothing_else_can_be_read(fs: FsView, ino: u64, offset: u64, size: u32)
    requires
        fs.paths.contains_key(ino) ==> ({
            let parts = parts_of(fs.paths[ino]);
            &&& parts.len() == 2 ==> parts[1] != seq!['.', 'r', 'e', 'f', 'r', 'e', 's', 'h']
            &&& parts.len() == 4 ==> ticket_file(
                fs.cache.held.tree,
                parts[0],
                parts[1],
                parts[2],
                parts[3],
            ) is None
        }),
    ensures
        read_step(fs, ino, offset, size) == ReadStepView::Fail(Errno::NotFound),
        after_read_step(fs, ino) == fs,
{
    reveal_strlit(".refresh");
    assert(".refresh"@ == seq!['.', 'r', 'e', 'f', 'r', 'e', 's', 'h']);
    assert(REFRESH_FILE@ == ".refresh"@);
}

/// A description that came in is kept in the tree and in the rendering of its page; everything else
/// stays as it was.
pub proof fn law_fetched_description_is_kept(
    fs: FsView,
    pending: PendingReadView,
    description: Seq<char>,
    page_id: Seq<char>,
)
    ensures
        ({
            let after = after_fetch(fs, pending, description);
            let whole = encode_utf8(
                ticket_text(TicketView { description, ..pending.ticket }),
            );
            &&& after.rendered.contains_key(pending.ticket.page_id)
            &&& after.rendered[pending.ticket.page_id] == whole
            &&& page_id != pending.ticket.page_id ==> after.rendered.contains_key(page_id)
                == fs.rendered.contains_key(page_id) && after.rendered[page_id]
                == fs.rendered[page_id]
            &&& after.cache.held.tree == with_description(
                fs.cache.held.tree,
                pending.project,
                pending.assignee,
                pending.status,
                pending.file,
                pending.ticket.page_id,
                description,
            )
            &&& after.cache == (CacheView {
                held: HoldingsView { tree: after.cache.held.tree, ..fs.cache.held },
                ..fs.cache
            })
            &&& after == (FsView { cache: after.cache, rendered: after.rendered, ..fs })
            &&& render_of(pending.ticket) == encode_utf8(ticket_text(pending.ticket))
            &&& with_text(pending.ticket, description) == (TicketView {
                description,
                ..pending.ticket
            })
        }),
{
}

/// A refresh renews what is held, forgets every rendering, and leaves a report of the project's
/// name and of the number of tickets that are now held; the reports of other projects and all else
/// stay as they were.
pub proof fn law_refresh_renews_and_reports(
    fs: FsView,
    request: RefreshRequestView,
    pages: Map<Seq<char>, Seq<Json>>,
    other: Seq<char>,
)
    ensures
        ({
            let after = after_refresh(fs, request, pages);
            let held = refreshed(fs.cache, Some(request.name), pages);
            &&& after.cache == (CacheView { held, ..fs.cache })
            &&& forall|page_id: Seq<char>| !(#[trigger] after.rendered.contains_key(page_id))
            &&& after.refresh_buf.contains_key(request.project)
            &&& after.refresh_buf[request.project] == encode_utf8(
                "Refreshed "@ + request.name + ": "@ + decimal(tree_count(held.tree))
                    + " tickets\n"@,
            )
            &&& other != request.project ==> after.refresh_buf.contains_key(other)
                == fs.refresh_buf.contains_key(other) && after.refresh_buf[other]
                == fs.refresh_buf[other]
            &&& after == (FsView {
                cache: after.cache,
                rendered: after.rendered,
                refresh_buf: after.refresh_buf,
                ..fs
            })
        }),
{
}

/// A refresh is answered where the pages of every project that it asks for came in.
pub proof fn law_refresh_needs_every_answer(
    cache: CacheView,
    name: Seq<char>,
    pages: Map<Seq<char>, Seq<Json>>,
    i: int,
)
    requires
        0 <= i < refresh_requests(cache.projects, Some(name)).len(),
        !pages.contains_key(refresh_requests(cache.projects, Some(name))[i].0),
    ensures
        !all_answered(cache, name, pages),
{
}

/// A refresh that has the pages of its own project is answered.
pub proof fn law_refresh_needs_no_more_than_its_project(
    cache: CacheView,
    name: Seq<char>,
    pages: Map<Seq<char>, Seq<Json>>,
)
    requires
        pages.contains_key(name),
    ensures
        all_answered(cache, name, pages),
{
    lemma_requests_are_for(cache.projects, name);
}

proof fn lemma_requests_are_for(
    projects: Seq<(Seq<char>, ProjectConfigView)>,
    name: Seq<char>,
)
    ensures
        forall|i: int|
            0 <= i < refresh_requests(projects, Some(name)).len() ==> (#[trigger] refresh_requests(
                projects,
                Some(name),
            )[i]).0 == name,
    decreases projects.len(),
{
    if projects.len() > 0 {
        lemma_requests_are_for(projects.drop_last(), name);
        let earlier = refresh_requests(projects.drop_last(), Some(name));
        assert forall|i: int| 0 <= i < refresh_requests(projects, Some(name)).len() implies (
        #[trigger] refresh_requests(projects, Some(name))[i]).0 == name by {
            if i < earlier.len() {
                assert(refresh_requests(projects, Some(name))[i] == earlier[i]);
            }
        }
    }
}

/// Entries are those of the listing, one for one.
pub proof fn law_entries_are_those_given(entries: Seq<DirEntry>, i: int)
    requires
        0 <= i < entries.len(),
    ensures
        entries_of(entries).len() == entries.len(),
        entries_of(entries)[i] == entries[i]@,
{
}

/// A refresh that is done has renewed the file system, gives the beginning of its report, and writes
/// the files of the projects that it renewed; among them is that of its own directory, with the
/// tickets that the directory now holds.
pub proof fn law_refresh_that_is_done(
    before: FsView,
    after: FsView,
    request: RefreshRequestView,
    pages: Map<Seq<char>, Seq<Json>>,
    reply: RefreshReply,
    path: Seq<char>,
)
    requires
        refresh_done(before, after, request, pages, reply),
    ensures
        after == after_refresh(before, request, pages),
        reply.data matches Ok(data) && data@ == window(
            after.refresh_buf[request.project],
            0,
            request.size as nat,
        ),
        ({
            let dir = after.cache.cache_dir;
            let batches = page_batches(after.cache.projects, Some(request.name), pages);
            let own = dir is Some && after.cache.held.tree.contains_key(request.project) && path
                == cache_path(dir->0, request.project);
            &&& own ==> reply.files@.contains_key(path) && project_tree(reply.files@[path])
                == after.cache.held.tree[request.project]
            &&& !own ==> reply.files@.contains_key(path) == saved_files(dir, batches).contains_key(
                path,
            )
            &&& !own && reply.files@.contains_key(path) ==> reply.files@[path] == saved_files(
                dir,
                batches,
            )[path]
        }),
{
    let dir = after.cache.cache_dir;
    let saved = saved_files(dir, page_batches(after.cache.projects, Some(request.name), pages));
    if dir is Some && after.cache.held.tree.contains_key(request.project) {
        let mine = cache_path(dir->0, request.project);
        assert(reply.files@.remove(mine) == saved.remove(mine));
        if path != mine {
            assert(reply.files@.remove(mine).contains_key(path) == reply.files@.contains_key(path));
            assert(saved.remove(mine).contains_key(path) == saved.contains_key(path));
            if reply.files@.contains_key(path) {
                assert(reply.files@.remove(mine)[path] == reply.files@[path]);
                assert(saved.remove(mine)[path] == saved[path]);
            }
        }
    }
}

/// A refresh that failed has changed nothing, reports that the API could not be asked, and writes
/// nothing.
pub proof fn law_refresh_that_failed(
    before: FsView,
    after: FsView,
    reply: RefreshReply,
    path: Seq<char>,
)
    requires
        refresh_failed(before, after, reply),
    ensures
        after == before,
        reply.data matches Err(e) && e is Io,
        !reply.files@.contains_key(path),
{
}

/// What is said of the steps of a read is said of the whole texts and numbers that they hold.
pub proof fn law_step_views_hold_every_field(
    request: RefreshRequest,
    pending: PendingRead,
    entry: DirEntry,
    data: Vec<u8>,
    e: Errno,
)
    ensures
        request@.project == request.project@,
        request@.name == request.name@,
        request@.size == request.size,
        pending@.project == pending.project@,
        pending@.assignee == pending.assignee@,
        pending@.status == pending.status@,
        pending@.file == pending.file@,
        pending@.ticket == pending.ticket@,
        pending@.offset == pending.offset,
        pending@.size == pending.size,
        entry@.ino == entry.ino,
        entry@.next == entry.next,
        entry@.kind == entry.kind,
        entry@.name == entry.name@,
        ReadStep::Fail(e)@ == ReadStepView::Fail(e),
        ReadStep::Data(data)@ == ReadStepView::Data(data@),
        ReadStep::Refresh(request)@ == ReadStepView::Refresh(request@),
        ReadStep::Fetch(pending)@ == ReadStepView::Fetch(pending@),
{
}

} // verus!
