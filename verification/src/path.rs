//! Paths below the mount point, as texts with `/` between their parts.

use vstd::prelude::*;

use crate::text::{same_text, texts_of};

verus! {

/// The index of the last slash of a path, and -1 if it has none.
pub open spec fn last_slash(path: Seq<char>) -> int
    decreases path.len(),
{
    if path.len() == 0 {
        -1
    } else if path.last() == '/' {
        path.len() - 1
    } else {
        last_slash(path.drop_last())
    }
}

/// A part as a list of at most one name: an empty part and the parts `.` and `..` name nothing.
pub open spec fn named(part: Seq<char>) -> Seq<Seq<char>> {
    if part.len() == 0 || part == "."@ || part == ".."@ {
        Seq::empty()
    } else {
        seq![part]
    }
}

/// The names along a path.
pub open spec fn parts_of(path: Seq<char>) -> Seq<Seq<char>>
    decreases path.len(),
{
    let k = last_slash(path);
    if 0 <= k < path.len() {
        parts_of(path.take(k)) + named(path.skip(k + 1))
    } else {
        named(path)
    }
}

/// The path of a child: the child's own path where it is absolute, and the path below the parent
/// otherwise.
pub open spec fn joined(parent: Seq<char>, child: Seq<char>) -> Seq<char> {
    if child.len() > 0 && child[0] == '/' {
        child
    } else if parent.len() == 0 || parent.last() == '/' {
        parent + child
    } else {
        parent.push('/') + child
    }
}

/// A path without the slashes and `.` parts at its end.
pub open spec fn trimmed(path: Seq<char>) -> Seq<char>
    decreases path.len(),
{
    if path.len() > 1 && path.last() == '/' {
        trimmed(path.drop_last())
    } else if path.len() > 1 && path.last() == '.' && path[path.len() - 2] == '/' {
        trimmed(path.drop_last())
    } else {
        path
    }
}

/// The path without its last part, and the path itself where it has no part.
pub open spec fn parent_of(path: Seq<char>) -> Seq<char> {
    let t = trimmed(path);
    if t.len() == 0 || t == seq!['/'] {
        path
    } else {
        trimmed(t.take(last_slash(t) + 1))
    }
}

/// Where the last slash stands.
pub proof fn lemma_last_slash(path: Seq<char>)
    ensures
        -1 <= last_slash(path) < path.len(),
        last_slash(path) >= 0 ==> path[last_slash(path)] == '/',
        forall|i: int| last_slash(path) < i < path.len() ==> path[i] != '/',
    decreases path.len(),
{
    if path.len() > 0 && path.last() != '/' {
        lemma_last_slash(path.drop_last());
        assert forall|i: int| last_slash(path) < i < path.len() implies path[i] != '/' by {
            if i < path.len() - 1 {
                assert(path.drop_last()[i] != '/');
            }
        }
    }
}

/// Splits a path into the names along it.
pub fn path_parts(path: &str) -> (parts: Vec<String>)
    ensures
        texts_of(parts@) == parts_of(path@),
{
    let mut parts: Vec<String> = Vec::new();
    let mut current = String::new();
    assert(texts_of(parts@) == Seq::<Seq<char>>::empty());
    for c in it: path.chars()
        invariant
            it.seq() == path@,
            ({
                let before = path@.take(it.index());
                let k = last_slash(before);
                &&& current@ == before.skip(k + 1)
                &&& texts_of(parts@) == if k < 0 {
                    Seq::<Seq<char>>::empty()
                } else {
                    parts_of(before.take(k))
                }
            }),
    {
        let ghost before = path@.take(it.index());
        let ghost after = path@.take(it.index() + 1);
        let ghost k = last_slash(before);
        proof {
            lemma_last_slash(before);
            assert(after == before.push(c));
            assert(after.drop_last() == before);
        }
        if c == '/' {
            push_named(&mut parts, current);
            current = String::new();
            proof {
                assert(after.take(last_slash(after)) == before);
                assert(after.skip(last_slash(after) + 1) == Seq::<char>::empty());
                if k < 0 {
                    assert(before.skip(0) == before);
                    assert(Seq::<Seq<char>>::empty() + named(before) == named(before));
                }
            }
        } else {
            current.push(c);
            proof {
                assert(after.skip(k + 1) == before.skip(k + 1).push(c));
                if k >= 0 {
                    assert(after.take(k) == before.take(k));
                }
            }
        }
    }
    proof {
        assert(path@.take(path@.len() as int) == path@);
        lemma_last_slash(path@);
        if last_slash(path@) < 0 {
            assert(path@.skip(0) == path@);
            assert(Seq::<Seq<char>>::empty() + named(path@) == named(path@));
        }
    }
    push_named(&mut parts, current);
    parts
}

/// Appends a part to the names of a path, where it names something.
fn push_named(parts: &mut Vec<String>, part: String)
    ensures
        texts_of(final(parts)@) == texts_of(old(parts)@) + named(part@),
{
    if !part.as_str().is_empty() && !same_text(part.as_str(), ".") && !same_text(
        part.as_str(),
        "..",
    ) {
        let ghost before = texts_of(parts@);
        let ghost name = part@;
        parts.push(part);
        assert(texts_of(parts@) == before + named(name));
    } else {
        assert(texts_of(parts@) == texts_of(parts@) + named(part@));
    }
}

/// Whether a text begins with a slash.
fn is_absolute(path: &str) -> (r: bool)
    ensures
        r == (path@.len() > 0 && path@[0] == '/'),
{
    match path.chars().next() {
        Some(c) => c == '/',
        None => false,
    }
}

/// The characters of a text.
fn chars_of(text: &str) -> (chars: Vec<char>)
    ensures
        chars@ == text@,
{
    let mut chars: Vec<char> = Vec::new();
    for c in it: text.chars()
        invariant
            it.seq() == text@,
            chars@ == text@.take(it.index()),
    {
        chars.push(c);
        assert(text@.take(it.index() + 1) == text@.take(it.index()).push(c));
    }
    assert(text@.take(text@.len() as int) == text@);
    chars
}

/// The text of the first characters.
fn text_of_first(chars: &Vec<char>, n: usize) -> (text: String)
    requires
        n <= chars@.len(),
    ensures
        text@ == chars@.take(n as int),
{
    let mut text = String::new();
    let mut i: usize = 0;
    assert(chars@.take(0) == text@);
    while i < n
        invariant
            i <= n <= chars@.len(),
            text@ == chars@.take(i as int),
        decreases n - i,
    {
        text.push(chars[i]);
        i = i + 1;
        assert(chars@.take(i as int) == chars@.take(i - 1).push(chars@[i - 1]));
    }
    text
}

/// The path of a child.
pub fn join(parent: &str, child: &str) -> (path: String)
    ensures
        path@ == joined(parent@, child@),
{
    if is_absolute(child) {
        return child.to_string();
    }
    let chars = chars_of(parent);
    let mut path = parent.to_string();
    if chars.len() > 0 && chars[chars.len() - 1] != '/' {
        path.push('/');
    }
    path.push_str(child);
    path
}

/// How many of the first `n` characters are left when slashes and `.` parts at their end go.
fn trimmed_len(chars: &Vec<char>, n: usize) -> (m: usize)
    requires
        n <= chars@.len(),
    ensures
        m <= n,
        chars@.take(m as int) == trimmed(chars@.take(n as int)),
{
    let mut m = n;
    while m > 1 && (chars[m - 1] == '/' || (chars[m - 1] == '.' && chars[m - 2] == '/'))
        invariant
            m <= n <= chars@.len(),
            trimmed(chars@.take(m as int)) == trimmed(chars@.take(n as int)),
        decreases m,
    {
        assert(chars@.take(m as int).drop_last() == chars@.take(m - 1));
        m = m - 1;
    }
    m
}

/// The path without its last part, and the path itself where it has no part.
pub fn parent(path: &str) -> (up: String)
    ensures
        up@ == parent_of(path@),
{
    let chars = chars_of(path);
    assert(chars@.take(chars@.len() as int) == path@);
    let n = trimmed_len(&chars, chars.len());
    let ghost t = chars@.take(n as int);
    if n == 0 || (n == 1 && chars[0] == '/') {
        proof {
            if n == 1 {
                assert(t == seq!['/']);
            }
        }
        return path.to_string();
    }
    assert(t.len() == n);
    assert(t != seq!['/']) by {
        if t == seq!['/'] {
            assert(t[0] == '/');
        }
    }
    let mut k: usize = n;
    proof {
        assert(chars@.take(k as int) == t);
    }
    while k > 0 && chars[k - 1] != '/'
        invariant
            k <= n <= chars@.len(),
            last_slash(chars@.take(k as int)) == last_slash(t),
        decreases k,
    {
        assert(chars@.take(k as int).drop_last() == chars@.take(k - 1));
        k = k - 1;
    }
    proof {
        assert(last_slash(t) == k - 1);
        assert(t.take(k as int) == chars@.take(k as int));
    }
    let m = trimmed_len(&chars, k);
    text_of_first(&chars, m)
}

/// Whether a text is the name of one part of a path.
pub open spec fn is_name(name: Seq<char>) -> bool {
    !name.contains('/') && named(name) == seq![name]
}

proof fn lemma_last_slash_before_name(head: Seq<char>, name: Seq<char>)
    requires
        !name.contains('/'),
    ensures
        last_slash(head + name) == last_slash(head),
    decreases name.len(),
{
    if name.len() == 0 {
        assert(head + name == head);
    } else {
        let rest = name.drop_last();
        assert((head + name).last() == name.last());
        assert(name[name.len() - 1] != '/');
        assert forall|i: int| 0 <= i < rest.len() implies rest[i] != '/' by {
            assert(name[i] != '/');
        }
        assert((head + name).drop_last() == head + rest);
        lemma_last_slash_before_name(head, rest);
    }
}

/// The names along the path of a child are those along its parent's path, then its own.
pub proof fn law_child_has_one_more_part(parent: Seq<char>, name: Seq<char>)
    requires
        is_name(name),
    ensures
        parts_of(joined(parent, name)) == parts_of(parent).push(name),
{
    let path = joined(parent, name);
    assert(name.len() > 0) by {
        if name.len() == 0 {
            assert(named(name).len() == 0);
        }
    }
    assert(name[0] != '/');
    if parent.len() == 0 {
        assert(path == name);
        assert(Seq::<char>::empty() + name == name);
        lemma_last_slash_before_name(Seq::empty(), name);
        assert(parts_of(parent) == Seq::<Seq<char>>::empty());
    } else if parent.last() == '/' {
        lemma_last_slash_before_name(parent, name);
        let k = parent.len() - 1;
        assert(path.take(k) == parent.take(k));
        assert(path.skip(k + 1) == name);
        assert(parent.skip(k + 1).len() == 0);
    } else {
        lemma_last_slash_before_name(parent.push('/'), name);
        let k = parent.len() as int;
        assert(path.take(k) == parent);
        assert(path.skip(k + 1) == name);
    }
    assert(parts_of(path) == parts_of(parent).push(name));
}

/// The parent of a child is the path that it was joined to, where that ends neither in a slash
/// (but for the root) nor in a `.` part.
pub proof fn law_parent_undoes_join(parent: Seq<char>, name: Seq<char>)
    requires
        is_name(name),
        parent.len() > 0,
        trimmed(parent) == parent,
    ensures
        parent_of(joined(parent, name)) == parent,
{
    let path = joined(parent, name);
    assert(name.len() > 0) by {
        if name.len() == 0 {
            assert(named(name).len() == 0);
        }
    }
    assert(name[0] != '/');
    assert(name[name.len() - 1] != '/');
    assert(path.last() == name.last());
    if name.len() == 1 {
        reveal_strlit(".");
        if name[0] == '.' {
            assert(name == "."@);
            assert(named(name).len() == 0);
        }
    } else {
        assert(name[name.len() - 2] != '/');
        assert(path[path.len() - 2] == name[name.len() - 2]);
    }
    assert(trimmed(path) == path);
    assert(path != seq!['/']) by {
        if path == seq!['/'] {
            assert(path.last() == '/');
        }
    }
    if parent.last() == '/' {
        assert(parent.len() == 1) by {
            if parent.len() > 1 {
                lemma_trimmed_is_shorter(parent.drop_last());
            }
        }
        lemma_last_slash_before_name(parent, name);
        assert(path.take(1) == parent);
    } else {
        lemma_last_slash_before_name(parent.push('/'), name);
        let up = parent.push('/');
        assert(path.take(up.len() as int) == up);
        assert(up.drop_last() == parent);
    }
}

proof fn lemma_trimmed_is_shorter(path: Seq<char>)
    ensures
        trimmed(path).len() <= path.len(),
    decreases path.len(),
{
    if path.len() > 1 {
        lemma_trimmed_is_shorter(path.drop_last());
    }
}

// ---------------------------------------------------------------------------
// When two texts are the same path
// ---------------------------------------------------------------------------

/// A part as a list of at most one component: an empty part and the part `.` are passed over.
pub open spec fn kept(part: Seq<char>) -> Seq<Seq<char>> {
    if part.len() == 0 || part == "."@ {
        Seq::empty()
    } else {
        seq![part]
    }
}

/// The parts of a path that are not passed over.
pub open spec fn kept_parts(path: Seq<char>) -> Seq<Seq<char>>
    decreases path.len(),
{
    let k = last_slash(path);
    if 0 <= k < path.len() {
        kept_parts(path.take(k)) + kept(path.skip(k + 1))
    } else {
        kept(path)
    }
}

/// What a path begins with: `/` where it is absolute, `.` where its first part is that, and
/// nothing otherwise.
pub open spec fn beginning(path: Seq<char>) -> Seq<Seq<char>> {
    if path.len() > 0 && path[0] == '/' {
        seq!["/"@]
    } else if path == "."@ || (path.len() > 1 && path[0] == '.' && path[1] == '/') {
        seq!["."@]
    } else {
        Seq::empty()
    }
}

/// The components of a path, as texts. Repeated slashes, a slash at the end and every `.` but one
/// at the beginning make no difference. Two texts are the same path where they have the same
/// components.
pub open spec fn components_of(path: Seq<char>) -> Seq<Seq<char>> {
    beginning(path) + kept_parts(path)
}

/// Whether a component is the name of a file or a directory.
pub open spec fn names_something(component: Seq<char>) -> bool {
    component != "/"@ && component != "."@ && component != ".."@
}

proof fn lemma_names_of_kept(part: Seq<char>)
    requires
        !part.contains('/'),
    ensures
        named(part) == kept(part).filter(|c: Seq<char>| names_something(c)),
{
    let pred = |c: Seq<char>| names_something(c);
    let none: Seq<Seq<char>> = Seq::empty();
    reveal_strlit("/");
    reveal(Seq::filter);
    if kept(part).len() > 0 {
        assert(part != "/"@) by {
            if part == "/"@ {
                assert(part[0] == '/');
            }
        }
        assert(kept(part).drop_last() == none);
        assert(none.filter(pred) == none);
        if part != ".."@ {
            assert(kept(part).filter(pred) == none.push(part));
        } else {
            assert(kept(part).filter(pred) == none);
        }
    } else {
        assert(kept(part) == none);
        assert(none.filter(pred) == none);
    }
}

proof fn lemma_parts_of_kept(path: Seq<char>)
    ensures
        parts_of(path) == kept_parts(path).filter(|c: Seq<char>| names_something(c)),
    decreases path.len(),
{
    let pred = |c: Seq<char>| names_something(c);
    let k = last_slash(path);
    lemma_last_slash(path);
    if 0 <= k < path.len() {
        let part = path.skip(k + 1);
        assert(!part.contains('/')) by {
            if part.contains('/') {
                let i = choose|i: int| 0 <= i < part.len() && part[i] == '/';
                assert(path[k + 1 + i] == '/');
            }
        }
        lemma_parts_of_kept(path.take(k));
        lemma_names_of_kept(part);
        Seq::filter_distributes_over_add(kept_parts(path.take(k)), kept(part), pred);
    } else {
        assert(!path.contains('/'));
        lemma_names_of_kept(path);
    }
}

/// The names along a path are those of its components that name something.
pub proof fn law_names_are_components(path: Seq<char>)
    ensures
        parts_of(path) == components_of(path).filter(|c: Seq<char>| names_something(c)),
{
    let pred = |c: Seq<char>| names_something(c);
    let none: Seq<Seq<char>> = Seq::empty();
    lemma_parts_of_kept(path);
    Seq::filter_distributes_over_add(beginning(path), kept_parts(path), pred);
    assert(beginning(path).filter(pred) == none) by {
        beginning(path).lemma_all_neg_filter_empty(pred);
    }
    assert(none + parts_of(path) == parts_of(path));
}

/// Texts that are the same path lead along the same names.
pub proof fn law_same_path_has_same_names(p: Seq<char>, q: Seq<char>)
    requires
        components_of(p) == components_of(q),
    ensures
        parts_of(p) == parts_of(q),
{
    law_names_are_components(p);
    law_names_are_components(q);
}

// ---------------------------------------------------------------------------
// Laws of building paths
// ---------------------------------------------------------------------------

/// The root has no names along it, and a slash at the end of a path adds none.
pub proof fn law_slashes_name_nothing(path: Seq<char>)
    ensures
        parts_of(seq!['/']).len() == 0,
        parts_of(path.push('/')) == parts_of(path),
{
    let root = seq!['/'];
    assert(last_slash(root) == 0);
    assert(root.take(0) == Seq::<char>::empty());
    assert(root.skip(1) == Seq::<char>::empty());
    assert(last_slash(Seq::<char>::empty()) == -1);
    assert(parts_of(root.take(0)).len() == 0);
    let p = path.push('/');
    let k = path.len() as int;
    assert(last_slash(p) == k);
    assert(p.take(k) == path);
    assert(p.skip(k + 1) == Seq::<char>::empty());
    assert(parts_of(p) == parts_of(path) + Seq::<Seq<char>>::empty());
    assert(parts_of(p) == parts_of(path));
}

/// Every name along a path is a whole part of it: it has no slash in it and is none of the empty
/// part, `.` and `..`.
pub proof fn law_names_are_whole_parts(path: Seq<char>, i: int)
    requires
        0 <= i < parts_of(path).len(),
    ensures
        is_name(parts_of(path)[i]),
    decreases path.len(),
{
    lemma_last_slash(path);
    let k = last_slash(path);
    if 0 <= k < path.len() {
        let part = path.skip(k + 1);
        assert(!part.contains('/')) by {
            if part.contains('/') {
                let j = choose|j: int| 0 <= j < part.len() && part[j] == '/';
                assert(path[k + 1 + j] == '/');
            }
        }
        let front = parts_of(path.take(k));
        if i < front.len() {
            law_names_are_whole_parts(path.take(k), i);
        } else {
            assert(parts_of(path)[i] == part);
        }
    } else {
        assert(!path.contains('/'));
    }
}

/// A name is a part of its own: not empty, without a slash, and neither `.` nor `..`.
pub proof fn law_names_are_told_by_their_characters(name: Seq<char>)
    ensures
        is_name(name) <==> name.len() > 0 && !name.contains('/') && name != seq!['.'] && name
            != seq!['.', '.'],
{
    reveal_strlit(".");
    reveal_strlit("..");
    assert("."@ == seq!['.']);
    assert(".."@ == seq!['.', '.']);
    if is_name(name) {
        assert(named(name).len() == 1);
    }
}

/// A child that is no absolute path stands below its parent, with one slash between them; one that
/// is absolute stands for itself.
pub proof fn law_child_path_holds_parent_and_name(parent: Seq<char>, child: Seq<char>)
    ensures
        child.len() > 0 && child[0] == '/' ==> joined(parent, child) == child,
        (child.len() == 0 || child[0] != '/') && parent.len() > 0 && parent.last() != '/'
            ==> joined(parent, child) == parent + seq!['/'] + child,
        (child.len() == 0 || child[0] != '/') && (parent.len() == 0 || parent.last() == '/')
            ==> joined(parent, child) == parent + child,
{
    if parent.len() > 0 {
        assert(parent.push('/') + child == parent + seq!['/'] + child);
    }
}

/// The root is its own parent.
pub proof fn law_root_is_its_own_parent()
    ensures
        parent_of(seq!['/']) == seq!['/'],
{
}

proof fn lemma_kept_parts_of_child(head: Seq<char>, name: Seq<char>)
    requires
        is_name(name),
        head.len() > 0,
        head.last() == '/',
    ensures
        kept_parts(head + name) == kept_parts(head.drop_last()).push(name),
{
    let path = head + name;
    let k = head.len() - 1;
    lemma_last_slash_before_name(head, name);
    assert(path.take(k) == head.drop_last());
    assert(path.skip(k + 1) == name);
    assert(kept(name) == seq![name]) by {
        assert(named(name).len() == 1);
    }
    assert(kept_parts(path) == kept_parts(head.drop_last()).push(name));
}

/// A child has the components of its parent and one more, its own name; so children of one parent
/// are the same path only where they have the same name.
pub proof fn law_child_has_one_more_component(parent: Seq<char>, name: Seq<char>)
    requires
        is_name(name),
        parent.len() > 0,
    ensures
        components_of(joined(parent, name)) == components_of(parent).push(name),
{
    reveal_strlit(".");
    assert("."@ == seq!['.']);
    assert(name.len() > 0) by {
        assert(named(name).len() == 1);
    }
    assert(name[0] != '/');
    let path = joined(parent, name);
    if parent.last() == '/' {
        lemma_kept_parts_of_child(parent, name);
        let none = Seq::<char>::empty();
        let k = parent.len() - 1;
        assert(parent.take(k) == parent.drop_last());
        assert(parent.skip(k + 1) == none);
        assert(kept_parts(parent) == kept_parts(parent.drop_last()) + Seq::<Seq<char>>::empty());
        assert(kept_parts(parent) == kept_parts(parent.drop_last()));
        assert(path == parent + name);
    } else {
        let head = parent.push('/');
        assert(head.drop_last() == parent);
        lemma_kept_parts_of_child(head, name);
        assert(path == head + name);
    }
    assert(beginning(path) == beginning(parent)) by {
        assert(path[0] == parent[0]);
        if parent.len() > 1 {
            assert(path[1] == parent[1]);
            assert(parent != seq!['.']);
        } else if parent[0] == '.' {
            assert(parent == seq!['.']);
            assert(path[1] == '/');
        } else if parent[0] != '/' {
            assert(path != seq!['.']);
        }
        if path == seq!['.'] {
            assert(path.len() > 1);
        }
    }
    assert(components_of(path) == components_of(parent).push(name));
}

/// The parts `.` and `..` name nothing: a path with one of them behind it has the names that it has
/// without.
pub proof fn law_dots_name_nothing(parent: Seq<char>, dots: Seq<char>)
    requires
        dots == seq!['.'] || dots == seq!['.', '.'],
    ensures
        parts_of(joined(parent, dots)) == parts_of(parent),
{
    reveal_strlit(".");
    reveal_strlit("..");
    assert("."@ == seq!['.']);
    assert(".."@ == seq!['.', '.']);
    let none: Seq<Seq<char>> = Seq::empty();
    let path = joined(parent, dots);
    assert(!dots.contains('/'));
    assert(dots[0] != '/');
    assert(named(dots) == none);
    if parent.len() == 0 {
        assert(path == dots);
        assert(Seq::<char>::empty() + dots == dots);
        lemma_last_slash_before_name(Seq::empty(), dots);
        assert(parts_of(parent) == none);
    } else if parent.last() == '/' {
        lemma_last_slash_before_name(parent, dots);
        let k = parent.len() - 1;
        assert(path.take(k) == parent.take(k));
        assert(path.skip(k + 1) == dots);
        assert(parent.skip(k + 1).len() == 0);
        assert(parts_of(path) == parts_of(parent.take(k)) + none);
        assert(parts_of(parent) == parts_of(parent.take(k)) + none);
    } else {
        lemma_last_slash_before_name(parent.push('/'), dots);
        let k = parent.len() as int;
        assert(path.take(k) == parent);
        assert(path.skip(k + 1) == dots);
        assert(parts_of(path) == parts_of(parent) + none);
    }
    assert(parts_of(path) == parts_of(parent));
}

} // verus!
