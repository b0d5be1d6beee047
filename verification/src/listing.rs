//! What a directory lists: its entries in the order of their names.

use vstd::prelude::*;
use vstd::relations::{sorted_by, total_ordering};
use vstd::seq_lib::{
    lemma_sorted_unique, to_multiset_build, to_multiset_contains, to_multiset_insert,
};

use crate::dict::{lemma_rows_map, Dict};
use crate::lookup::{
    directory, directory_at, exists_at, file_index, file_name, find_directory, finite_tree,
    lemma_file_index, ticket_file, ticket_file_name, REFRESH_FILE,
};
use crate::notion::TicketView;
use crate::text::{
    lemma_precedes_irreflexive, lemma_precedes_total, lemma_precedes_transitive, precedes,
    same_text, stands_before, texts_of,
};
use crate::tree::{Tree, TreeView};

verus! {

/// The kind of an entry.
#[derive(Clone, Copy, Debug, PartialEq, Eq, Structural)]
pub enum FileKind {
    Directory,
    RegularFile,
}

/// A name and its kind.
#[derive(Debug, PartialEq, Eq)]
pub struct DirRow {
    pub name: String,
    pub kind: FileKind,
}

impl View for DirRow {
    type V = (Seq<char>, FileKind);

    open spec fn view(&self) -> (Seq<char>, FileKind) {
        (self.name@, self.kind)
    }
}

/// What some rows hold.
pub open spec fn rows_of(rows: Seq<DirRow>) -> Seq<(Seq<char>, FileKind)> {
    rows.map_values(|row: DirRow| row@)
}

/// The order of entries: by name, and a file before a directory of the same name.
pub open spec fn row_leq(a: (Seq<char>, FileKind), b: (Seq<char>, FileKind)) -> bool {
    precedes(a.0, b.0) || (a.0 == b.0 && (a.1 is RegularFile || b.1 is Directory))
}

/// The order of entries as a relation.
pub open spec fn row_order() -> spec_fn((Seq<char>, FileKind), (Seq<char>, FileKind)) -> bool {
    |a: (Seq<char>, FileKind), b: (Seq<char>, FileKind)| row_leq(a, b)
}

/// Whether a directory above the tickets lists an entry: the projects at the root; the assignees
/// and the `.refresh` file in a project; the statuses in an assignee's directory.
pub open spec fn lists(
    tree: TreeView,
    parts: Seq<Seq<char>>,
    row: (Seq<char>, FileKind),
) -> bool {
    if parts.len() == 0 {
        row.1 is Directory && tree.contains_key(row.0)
    } else if parts.len() == 1 {
        tree.contains_key(parts[0]) && (row == (REFRESH_FILE@, FileKind::RegularFile) || (
        row.1 is Directory && tree[parts[0]].contains_key(row.0)))
    } else if parts.len() == 2 {
        row.1 is Directory && tree.contains_key(parts[0]) && tree[parts[0]].contains_key(
            parts[1],
        ) && tree[parts[0]][parts[1]].contains_key(row.0)
    } else {
        false
    }
}

/// The files of some tickets.
pub open spec fn file_rows(list: Seq<TicketView>) -> Seq<(Seq<char>, FileKind)> {
    list.map_values(|t: TicketView| (file_name(t), FileKind::RegularFile))
}

/// The tickets of a status directory, and none where there is no such directory.
pub open spec fn listed_tickets(tree: TreeView, parts: Seq<Seq<char>>) -> Seq<TicketView> {
    match directory(tree, parts[0], parts[1], parts[2]) {
        Some(list) => list,
        None => Seq::empty(),
    }
}

/// Whether some rows are what a directory lists, in order: one row for each ticket of a status
/// directory, and each entry once in a directory above.
pub open spec fn is_listing(
    tree: TreeView,
    parts: Seq<Seq<char>>,
    rows: Seq<(Seq<char>, FileKind)>,
) -> bool {
    &&& sorted_by(rows, row_order())
    &&& if parts.len() == 3 {
        rows.to_multiset() == file_rows(listed_tickets(tree, parts)).to_multiset()
    } else {
        rows.no_duplicates() && forall|row: (Seq<char>, FileKind)| #[trigger]
            rows.contains(row) <==> lists(tree, parts, row)
    }
}

/// What a directory lists.
pub open spec fn listing(tree: TreeView, parts: Seq<Seq<char>>) -> Seq<(Seq<char>, FileKind)> {
    choose|rows: Seq<(Seq<char>, FileKind)>| is_listing(tree, parts, rows)
}

/// The order of entries is total.
pub proof fn lemma_row_order_is_total()
    ensures
        total_ordering(row_order()),
{
    let leq = row_order();
    assert forall|a: (Seq<char>, FileKind)| #[trigger] leq(a, a) by {}
    assert forall|a: (Seq<char>, FileKind), b: (Seq<char>, FileKind)| #[trigger]
        leq(a, b) && #[trigger] leq(b, a) implies a == b by {
        if precedes(a.0, b.0) {
            lemma_precedes_irreflexive(a.0);
            if precedes(b.0, a.0) {
                lemma_precedes_transitive(a.0, b.0, a.0);
            }
        } else if precedes(b.0, a.0) {
            lemma_precedes_irreflexive(a.0);
        }
    }
    assert forall|
        a: (Seq<char>, FileKind),
        b: (Seq<char>, FileKind),
        c: (Seq<char>, FileKind),
    | #[trigger] leq(a, b) && #[trigger] leq(b, c) implies leq(a, c) by {
        if precedes(a.0, b.0) && precedes(b.0, c.0) {
            lemma_precedes_transitive(a.0, b.0, c.0);
        }
    }
    assert forall|a: (Seq<char>, FileKind), b: (Seq<char>, FileKind)| #[trigger]
        leq(a, b) || #[trigger] leq(b, a) by {
        lemma_precedes_total(a.0, b.0);
    }
}

/// Two sequences without duplicates that hold the same hold each equally often.
proof fn lemma_same_members<A>(x: Seq<A>, y: Seq<A>)
    requires
        x.no_duplicates(),
        y.no_duplicates(),
        forall|a: A| x.contains(a) <==> y.contains(a),
    ensures
        x.to_multiset() == y.to_multiset(),
{
    x.lemma_multiset_has_no_duplicates();
    y.lemma_multiset_has_no_duplicates();
    assert forall|a: A| x.to_multiset().count(a) == y.to_multiset().count(a) by {
        to_multiset_contains(x, a);
        to_multiset_contains(y, a);
        assert(x.contains(a) <==> y.contains(a));
    }
    assert(x.to_multiset() =~= y.to_multiset());
}

/// Listings are stable: a directory of a given tree lists the same entries in the same order
/// every time.
pub proof fn law_listing_is_stable(
    tree: TreeView,
    parts: Seq<Seq<char>>,
    rows: Seq<(Seq<char>, FileKind)>,
    again: Seq<(Seq<char>, FileKind)>,
)
    requires
        is_listing(tree, parts, rows),
        is_listing(tree, parts, again),
    ensures
        rows == again,
{
    lemma_row_order_is_total();
    if parts.len() != 3 {
        assert forall|row: (Seq<char>, FileKind)| rows.contains(row) <==> again.contains(row) by {
            assert(rows.contains(row) <==> lists(tree, parts, row));
            assert(again.contains(row) <==> lists(tree, parts, row));
        }
        lemma_same_members(rows, again);
    }
    lemma_sorted_unique(rows, again, row_order());
}

/// Whether a row stands before or at another.
fn row_in_order(a: &DirRow, b: &DirRow) -> (r: bool)
    ensures
        r == row_leq(a@, b@),
{
    if stands_before(a.name.as_str(), b.name.as_str()) {
        true
    } else if same_text(a.name.as_str(), b.name.as_str()) {
        match (a.kind, b.kind) {
            (FileKind::RegularFile, _) => true,
            (_, FileKind::Directory) => true,
            _ => false,
        }
    } else {
        false
    }
}

/// Puts a row where it belongs among sorted rows.
fn insert_sorted(rows: &mut Vec<DirRow>, row: DirRow)
    requires
        sorted_by(rows_of(old(rows)@), row_order()),
    ensures
        sorted_by(rows_of(final(rows)@), row_order()),
        rows_of(final(rows)@).to_multiset() == rows_of(old(rows)@).to_multiset().insert(row@),
{
    let ghost before = rows_of(rows@);
    let ghost leq = row_order();
    let mut i: usize = 0;
    while i < rows.len() && row_in_order(&rows[i], &row)
        invariant
            i <= rows@.len(),
            rows_of(rows@) == before,
            forall|j: int| 0 <= j < i ==> row_leq(#[trigger] before[j], row@),
        decreases rows@.len() - i,
    {
        assert(before[i as int] == rows@[i as int]@);
        i = i + 1;
    }
    proof {
        lemma_row_order_is_total();
        if i < before.len() {
            assert(before[i as int] == rows@[i as int]@);
            assert(!leq(before[i as int], row@));
            assert(leq(row@, before[i as int]));
        }
        to_multiset_insert(before, i as int, row@);
    }
    rows.insert(i, row);
    proof {
        let after = rows_of(rows@);
        assert(after == before.insert(i as int, row@));
        assert forall|j: int, k: int| 0 <= j < k < after.len() implies #[trigger] leq(
            after[j],
            after[k],
        ) by {
            if j < i && k == i {
                assert(row_leq(before[j], row@));
            } else if j == i {
                assert(leq(row@, before[i as int]));
                assert(k - 1 == i || leq(before[i as int], before[k - 1]));
            }
        }
    }
}

/// Sorts rows.
fn sort_rows(rows: Vec<DirRow>) -> (sorted: Vec<DirRow>)
    ensures
        sorted_by(rows_of(sorted@), row_order()),
        rows_of(sorted@).to_multiset() == rows_of(rows@).to_multiset(),
{
    broadcast use vstd::multiset::group_multiset_axioms;

    let ghost all = rows_of(rows@).to_multiset();
    let mut rest = rows;
    let mut sorted: Vec<DirRow> = Vec::new();
    proof {
        assert(rows_of(sorted@) == Seq::<(Seq<char>, FileKind)>::empty());
        rows_of(sorted@).to_multiset_ensures();
        assert(all =~= rows_of(rest@).to_multiset().add(rows_of(sorted@).to_multiset()));
    }
    while rest.len() > 0
        invariant
            sorted_by(rows_of(sorted@), row_order()),
            all == rows_of(rest@).to_multiset().add(rows_of(sorted@).to_multiset()),
        decreases rest@.len(),
    {
        let ghost rest_before = rows_of(rest@);
        let ghost sorted_before = rows_of(sorted@);
        if let Some(row) = rest.pop() {
            insert_sorted(&mut sorted, row);
            proof {
                assert(rest_before == rows_of(rest@).push(row@));
                to_multiset_build(rows_of(rest@), row@);
                assert(all =~= rows_of(rest@).to_multiset().add(
                    rows_of(sorted@).to_multiset(),
                ));
            }
        }
    }
    proof {
        assert(rows_of(rest@) == Seq::<(Seq<char>, FileKind)>::empty());
        rows_of(rest@).to_multiset_ensures();
        assert(all =~= rows_of(sorted@).to_multiset());
    }
    sorted
}

/// The keys of some rows of a dictionary as directories.
pub open spec fn directory_rows<W>(rows: Seq<(Seq<char>, W)>) -> Seq<(Seq<char>, FileKind)> {
    rows.map_values(|row: (Seq<char>, W)| (row.0, FileKind::Directory))
}

/// Appends the keys of a dictionary as directories.
fn push_keys<V: DeepView>(rows: &mut Vec<DirRow>, dict: &Dict<V>)
    ensures
        rows_of(final(rows)@) == rows_of(old(rows)@) + directory_rows(dict.rows()),
{
    let ghost before = rows_of(rows@);
    let ghost all = directory_rows(dict.rows());
    let n = dict.len();
    let mut i: usize = 0;
    assert(before + all.take(0) == before);
    while i < n
        invariant
            i <= n == dict.rows().len(),
            all == directory_rows(dict.rows()),
            rows_of(rows@) == before + all.take(i as int),
        decreases n - i,
    {
        let ghost so_far = rows_of(rows@);
        let row = DirRow { name: dict.key_at(i).clone(), kind: FileKind::Directory };
        assert(row@ == all[i as int]);
        rows.push(row);
        assert(rows_of(rows@) == so_far.push(all[i as int]));
        assert(all.take(i + 1) == all.take(i as int).push(all[i as int]));
        i = i + 1;
    }
    assert(all.take(n as int) == all);
}

/// The keys of a dictionary are its rows' keys, each once.
proof fn lemma_directory_rows<W>(rows: Seq<(Seq<char>, W)>)
    requires
        crate::dict::distinct_keys(rows),
    ensures
        directory_rows(rows).no_duplicates(),
        forall|row: (Seq<char>, FileKind)| #[trigger]
            directory_rows(rows).contains(row) <==> row.1 is Directory && crate::dict::rows_map(
                rows,
            ).contains_key(row.0),
{
    let dirs = directory_rows(rows);
    lemma_rows_map(rows);
    assert forall|i: int, j: int| 0 <= i < dirs.len() && 0 <= j < dirs.len() && i != j implies dirs[i]
        != dirs[j] by {
        if i < j {
            assert(rows[i].0 != rows[j].0);
        } else {
            assert(rows[j].0 != rows[i].0);
        }
    }
    assert forall|row: (Seq<char>, FileKind)| #[trigger]
        dirs.contains(row) <==> row.1 is Directory && crate::dict::rows_map(rows).contains_key(
        row.0,
    ) by {
        if dirs.contains(row) {
            let i = choose|i: int| 0 <= i < dirs.len() && dirs[i] == row;
            assert(rows[i].0 == row.0);
        }
        if row.1 is Directory && crate::dict::rows_map(rows).contains_key(row.0) {
            let i = choose|i: int| 0 <= i < rows.len() && (#[trigger] rows[i]).0 == row.0;
            assert(dirs[i] == row);
        }
    }
}

/// Sorted rows that hold what unsorted rows without duplicates hold have none either.
proof fn lemma_sorted_members(
    unsorted: Seq<(Seq<char>, FileKind)>,
    sorted: Seq<(Seq<char>, FileKind)>,
)
    requires
        unsorted.no_duplicates(),
        sorted.to_multiset() == unsorted.to_multiset(),
    ensures
        sorted.no_duplicates(),
        forall|row: (Seq<char>, FileKind)| #[trigger]
            sorted.contains(row) <==> unsorted.contains(row),
{
    unsorted.lemma_multiset_has_no_duplicates();
    sorted.lemma_multiset_has_no_duplicates_conv();
    assert forall|row: (Seq<char>, FileKind)| #[trigger]
        sorted.contains(row) <==> unsorted.contains(row) by {
        to_multiset_contains(sorted, row);
        to_multiset_contains(unsorted, row);
    }
}

/// Lists a directory.
pub fn list_directory(tree: &Tree, parts: &Vec<String>) -> (rows: Vec<DirRow>)
    requires
        parts@.len() <= 3,
    ensures
        is_listing(tree@, texts_of(parts@), rows_of(rows@)),
        rows_of(rows@) == listing(tree@, texts_of(parts@)),
{
    let ghost names = texts_of(parts@);
    let mut rows: Vec<DirRow> = Vec::new();
    let ghost none: Seq<(Seq<char>, FileKind)> = Seq::empty();
    assert(rows_of(rows@) == none);
    if parts.len() == 0 {
        let _ = tree.len();
        push_keys(&mut rows, tree);
        proof {
            assert(rows_of(rows@) == directory_rows(tree.rows()));
            lemma_directory_rows(tree.rows());
        }
    } else if parts.len() == 1 {
        if let Some(assignees) = tree.get(parts[0].as_str()) {
            let _ = assignees.len();
            let refresh = DirRow { name: REFRESH_FILE.to_string(), kind: FileKind::RegularFile };
            let ghost refresh_row = refresh@;
            rows.push(refresh);
            assert(rows_of(rows@) == seq![refresh_row]);
            push_keys(&mut rows, assignees);
            proof {
                let dirs = directory_rows(assignees.rows());
                let all = rows_of(rows@);
                lemma_directory_rows(assignees.rows());
                assert(all == seq![refresh_row] + dirs);
                assert(!dirs.contains(refresh_row));
                lemma_row_in_front(refresh_row, dirs);
            }
        }
    } else if parts.len() == 2 {
        if let Some(assignees) = tree.get(parts[0].as_str()) {
            if let Some(statuses) = assignees.get(parts[1].as_str()) {
                let _ = statuses.len();
                push_keys(&mut rows, statuses);
                proof {
                    assert(rows_of(rows@) == directory_rows(statuses.rows()));
                    lemma_directory_rows(statuses.rows());
                }
            }
        }
    } else {
        if let Some(tickets) = find_directory(
            tree,
            parts[0].as_str(),
            parts[1].as_str(),
            parts[2].as_str(),
        ) {
            let mut i: usize = 0;
            let ghost list = tickets.deep_view();
            while i < tickets.len()
                invariant
                    i <= tickets@.len(),
                    list == tickets.deep_view(),
                    rows_of(rows@) == file_rows(list).take(i as int),
                decreases tickets@.len() - i,
            {
                let ghost so_far = rows_of(rows@);
                let row = DirRow {
                    name: ticket_file_name(&tickets[i]),
                    kind: FileKind::RegularFile,
                };
                assert(row@ == file_rows(list)[i as int]);
                rows.push(row);
                assert(rows_of(rows@) == so_far.push(file_rows(list)[i as int]));
                i = i + 1;
                assert(file_rows(list).take(i as int) == so_far.push(file_rows(list)[i - 1]));
            }
            assert(file_rows(list).take(list.len() as int) == file_rows(list));
        }
        assert(rows_of(rows@) == file_rows(listed_tickets(tree@, names)));
    }
    let ghost unsorted = rows_of(rows@);
    let sorted = sort_rows(rows);
    proof {
        if names.len() != 3 {
            assert forall|row: (Seq<char>, FileKind)| #[trigger]
                unsorted.contains(row) <==> lists(tree@, names, row) by {}
            lemma_sorted_members(unsorted, rows_of(sorted@));
            assert forall|row: (Seq<char>, FileKind)| #[trigger]
                rows_of(sorted@).contains(row) <==> lists(tree@, names, row) by {
                assert(unsorted.contains(row) <==> lists(tree@, names, row));
            }
        }
        assert(is_listing(tree@, names, rows_of(sorted@)));
        law_listing_is_stable(tree@, names, rows_of(sorted@), listing(tree@, names));
    }
    sorted
}

/// Whatever a directory lists is there, and of the kind that it is listed as. The exception is an
/// assignee's directory with the name of the `.refresh` file.
pub proof fn law_listed_entries_exist(
    tree: TreeView,
    parts: Seq<Seq<char>>,
    rows: Seq<(Seq<char>, FileKind)>,
    i: int,
)
    requires
        parts.len() <= 3,
        is_listing(tree, parts, rows),
        0 <= i < rows.len(),
        parts.len() == 1 ==> rows[i] != (REFRESH_FILE@, FileKind::Directory),
    ensures
        exists_at(tree, parts.push(rows[i].0)),
        directory_at(parts.push(rows[i].0)) == (rows[i].1 is Directory),
{
    let row = rows[i];
    let child = parts.push(row.0);
    assert(rows.contains(row));
    if parts.len() == 3 {
        let list = listed_tickets(tree, parts);
        to_multiset_contains(rows, row);
        to_multiset_contains(file_rows(list), row);
        assert(file_rows(list).contains(row));
        let k = choose|k: int| 0 <= k < file_rows(list).len() && file_rows(list)[k] == row;
        assert(file_name(list[k]) == row.0);
        lemma_file_index(list, row.0);
        assert(file_index(list, row.0) >= 0);
        assert(ticket_file(tree, child[0], child[1], child[2], child[3]) is Some);
    } else {
        assert(lists(tree, parts, row));
    }
}

/// Whatever is in a directory is listed there.
pub proof fn law_existing_entries_are_listed(
    tree: TreeView,
    parts: Seq<Seq<char>>,
    rows: Seq<(Seq<char>, FileKind)>,
    name: Seq<char>,
)
    requires
        parts.len() <= 3,
        is_listing(tree, parts, rows),
        exists_at(tree, parts.push(name)),
    ensures
        rows.contains(
            (
                name,
                if directory_at(parts.push(name)) {
                    FileKind::Directory
                } else {
                    FileKind::RegularFile
                },
            ),
        ),
{
    let child = parts.push(name);
    if parts.len() == 3 {
        let list = listed_tickets(tree, parts);
        let row = (name, FileKind::RegularFile);
        lemma_file_index(list, name);
        assert(child[3] == name);
        assert(ticket_file(tree, child[0], child[1], child[2], child[3]) is Some);
        let k = file_index(list, name);
        assert(file_rows(list)[k] == row);
        to_multiset_contains(file_rows(list), row);
        to_multiset_contains(rows, row);
    } else {
        let row = (
            name,
            if directory_at(child) {
                FileKind::Directory
            } else {
                FileKind::RegularFile
            },
        );
        assert(lists(tree, parts, row));
    }
}

/// The members of a finite set as a sequence, each once.
proof fn lemma_set_to_seq<A>(s: Set<A>)
    requires
        s.finite(),
    ensures
        s.to_seq().no_duplicates(),
        forall|a: A| #[trigger] s.to_seq().contains(a) <==> s.contains(a),
    decreases s.len(),
{
    if s.len() > 0 {
        let x = s.choose();
        let rest = s.remove(x).to_seq();
        lemma_set_to_seq(s.remove(x));
        assert(s.to_seq() == seq![x] + rest);
        assert forall|a: A| #[trigger] s.to_seq().contains(a) <==> s.contains(a) by {
            if s.contains(a) {
                if a == x {
                    assert(s.to_seq()[0] == a);
                } else {
                    assert(rest.contains(a));
                    let i = choose|i: int| 0 <= i < rest.len() && rest[i] == a;
                    assert(s.to_seq()[i + 1] == a);
                }
            }
            if s.to_seq().contains(a) {
                let i = choose|i: int| 0 <= i < s.to_seq().len() && s.to_seq()[i] == a;
                if i > 0 {
                    assert(rest[i - 1] == a);
                    assert(rest.contains(a));
                }
            }
        }
        assert(!rest.contains(x));
        assert forall|i: int, j: int|
            0 <= i < s.to_seq().len() && 0 <= j < s.to_seq().len() && i != j implies s.to_seq()[i]
            != s.to_seq()[j] by {
            if i == 0 {
                assert(rest.contains(rest[j - 1]));
            } else if j == 0 {
                assert(rest.contains(rest[i - 1]));
            } else {
                assert(rest[i - 1] != rest[j - 1]);
            }
        }
    }
}

/// The names of some directories as unsorted rows, each once.
proof fn lemma_rows_of_names(names: Set<Seq<char>>) -> (rows: Seq<(Seq<char>, FileKind)>)
    requires
        names.finite(),
    ensures
        rows.no_duplicates(),
        forall|row: (Seq<char>, FileKind)| #[trigger]
            rows.contains(row) <==> row.1 is Directory && names.contains(row.0),
{
    lemma_set_to_seq(names);
    let keys = names.to_seq();
    let rows = keys.map_values(|name: Seq<char>| (name, FileKind::Directory));
    assert forall|row: (Seq<char>, FileKind)| #[trigger]
        rows.contains(row) <==> row.1 is Directory && names.contains(row.0) by {
        if rows.contains(row) {
            let i = choose|i: int| 0 <= i < rows.len() && rows[i] == row;
            assert(keys.contains(keys[i]));
        }
        if row.1 is Directory && names.contains(row.0) {
            assert(keys.contains(row.0));
            let i = choose|i: int| 0 <= i < keys.len() && keys[i] == row.0;
            assert(rows[i] == row);
        }
    }
    rows
}

/// One more row in front of rows that do not hold it.
proof fn lemma_row_in_front(
    row: (Seq<char>, FileKind),
    rows: Seq<(Seq<char>, FileKind)>,
)
    requires
        rows.no_duplicates(),
        !rows.contains(row),
    ensures
        (seq![row] + rows).no_duplicates(),
        forall|other: (Seq<char>, FileKind)| #[trigger]
            (seq![row] + rows).contains(other) <==> other == row || rows.contains(other),
{
    let all = seq![row] + rows;
    assert forall|i: int, j: int|
        0 <= i < all.len() && 0 <= j < all.len() && i != j implies all[i] != all[j] by {
        if i == 0 {
            assert(rows.contains(rows[j - 1]));
        } else if j == 0 {
            assert(rows.contains(rows[i - 1]));
        } else {
            assert(rows[i - 1] != rows[j - 1]);
        }
    }
    assert forall|other: (Seq<char>, FileKind)| #[trigger]
        all.contains(other) <==> other == row || rows.contains(other) by {
        if all.contains(other) {
            let i = choose|i: int| 0 <= i < all.len() && all[i] == other;
            if i > 0 {
                assert(rows[i - 1] == other);
            }
        }
        if rows.contains(other) {
            let i = choose|i: int| 0 <= i < rows.len() && rows[i] == other;
            assert(all[i + 1] == other);
        }
        assert(all[0] == row);
    }
}

/// Every directory of a finite tree has a listing.
pub proof fn lemma_listing_exists(tree: TreeView, parts: Seq<Seq<char>>)
    requires
        finite_tree(tree),
        parts.len() <= 3,
    ensures
        is_listing(tree, parts, listing(tree, parts)),
{
    lemma_row_order_is_total();
    if parts.len() == 3 {
        let rows = file_rows(listed_tickets(tree, parts));
        rows.lemma_sort_by_ensures(row_order());
        assert(is_listing(tree, parts, rows.sort_by(row_order())));
    } else {
        let refresh_row = (REFRESH_FILE@, FileKind::RegularFile);
        let none: Seq<(Seq<char>, FileKind)> = Seq::empty();
        let rows = if parts.len() == 0 {
            lemma_rows_of_names(tree.dom())
        } else if !tree.contains_key(parts[0]) {
            none
        } else if parts.len() == 1 {
            let dirs = lemma_rows_of_names(tree[parts[0]].dom());
            assert(!dirs.contains(refresh_row));
            lemma_row_in_front(refresh_row, dirs);
            seq![refresh_row] + dirs
        } else if tree[parts[0]].contains_key(parts[1]) {
            lemma_rows_of_names(tree[parts[0]][parts[1]].dom())
        } else {
            none
        };
        assert(rows.no_duplicates());
        assert forall|row: (Seq<char>, FileKind)| #[trigger]
            rows.contains(row) <==> lists(tree, parts, row) by {}
        rows.lemma_sort_by_ensures(row_order());
        let sorted = rows.sort_by(row_order());
        lemma_sorted_members(rows, sorted);
        assert forall|row: (Seq<char>, FileKind)| #[trigger]
            sorted.contains(row) <==> lists(tree, parts, row) by {
            assert(rows.contains(row) <==> lists(tree, parts, row));
        }
        assert(is_listing(tree, parts, sorted));
    }
}

// ---------------------------------------------------------------------------
// Laws of listings
// ---------------------------------------------------------------------------

/// What a directory lists is in the order of the names: no name stands behind a later one in it,
/// and of a file and a directory of one name the file comes first.
pub proof fn law_listing_is_in_order(
    tree: TreeView,
    parts: Seq<Seq<char>>,
    rows: Seq<(Seq<char>, FileKind)>,
    i: int,
    j: int,
)
    requires
        is_listing(tree, parts, rows),
        0 <= i < j < rows.len(),
    ensures
        rows[i].0 == rows[j].0 || precedes(rows[i].0, rows[j].0),
        rows[i].0 == rows[j].0 && rows[i].1 is Directory ==> rows[j].1 is Directory,
{
    let leq = row_order();
    assert(leq(rows[i], rows[j]));
    lemma_precedes_irreflexive(rows[i].0);
}

/// A status directory lists one file for each of its tickets, under the ticket's identifier, and
/// nothing else.
pub proof fn law_every_ticket_is_listed(
    tree: TreeView,
    parts: Seq<Seq<char>>,
    rows: Seq<(Seq<char>, FileKind)>,
)
    requires
        parts.len() == 3,
        is_listing(tree, parts, rows),
        tree.contains_key(parts[0]),
        tree[parts[0]].contains_key(parts[1]),
        tree[parts[0]][parts[1]].contains_key(parts[2]),
    ensures
        ({
            let list = tree[parts[0]][parts[1]][parts[2]];
            &&& rows.len() == list.len()
            &&& rows.to_multiset() == list.map_values(
                |t: TicketView| (t.ticket_id + seq!['.', 'm', 'd'], FileKind::RegularFile),
            ).to_multiset()
        }),
{
    let list = tree[parts[0]][parts[1]][parts[2]];
    reveal_strlit(".md");
    assert(".md"@ == seq!['.', 'm', 'd']);
    assert(file_rows(list) =~= list.map_values(
        |t: TicketView| (t.ticket_id + seq!['.', 'm', 'd'], FileKind::RegularFile),
    ));
    assert(listed_tickets(tree, parts) == list);
    rows.to_multiset_ensures();
    file_rows(list).to_multiset_ensures();
}

/// Where there is no directory, nothing is listed.
pub proof fn law_nothing_is_listed_where_nothing_is(
    tree: TreeView,
    parts: Seq<Seq<char>>,
    rows: Seq<(Seq<char>, FileKind)>,
)
    requires
        parts.len() <= 3,
        is_listing(tree, parts, rows),
        !exists_at(tree, parts) || !directory_at(parts),
        parts.len() == 2 && parts[1] == REFRESH_FILE@ ==> !(tree.contains_key(parts[0])
            && tree[parts[0]].contains_key(parts[1])),
    ensures
        rows.len() == 0,
{
    if rows.len() > 0 {
        assert(rows.contains(rows[0]));
        if parts.len() == 3 {
            to_multiset_contains(rows, rows[0]);
            to_multiset_contains(file_rows(listed_tickets(tree, parts)), rows[0]);
        } else {
            assert(lists(tree, parts, rows[0]));
        }
    }
}

/// Each project, assignee and status is listed once in the directory above it, and each project
/// lists its `.refresh` file once.
pub proof fn law_each_entry_is_listed_once(
    tree: TreeView,
    parts: Seq<Seq<char>>,
    rows: Seq<(Seq<char>, FileKind)>,
    i: int,
    j: int,
)
    requires
        parts.len() < 3,
        is_listing(tree, parts, rows),
        0 <= i < j < rows.len(),
    ensures
        rows[i] != rows[j],
{
}

/// What is said of rows is said of their whole names and of their kinds, one for one.
pub proof fn law_rows_hold_names_and_kinds(rows: Seq<DirRow>, i: int)
    requires
        0 <= i < rows.len(),
    ensures
        rows_of(rows).len() == rows.len(),
        rows_of(rows)[i].0 == rows[i].name@,
        rows_of(rows)[i].1 == rows[i].kind,
{
}

} // verus!
