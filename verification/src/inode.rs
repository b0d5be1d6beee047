//! Inode numbers: a hash of the path, with one number kept for the root.

use std::collections::hash_map::DefaultHasher;
use std::hash::{Hash, Hasher};
use std::path::PathBuf;

use vstd::prelude::*;
use vstd::std_specs::hash::DefaultHasherAdditionalSpecFns;

use crate::path::components_of;
use crate::text::same_text;

verus! {

/// The inode of the root.
pub const ROOT_INO: u64 = 1;

/// What a path of the given components writes into a hasher, on a machine whose pointers have the
/// given number of bits.
pub uninterp spec fn path_writes(components: Seq<Seq<char>>, pointer_bits: u32) -> Seq<Seq<u8>>;

/// Trusts `<PathBuf as Hash>::hash` of std: the writes that it adds to those of the hasher are a
/// function of the path's components, since equal paths hash alike and paths are equal where their
/// components are. Among the writes is a length, so they go by the machine's pointer width, and the
/// bytes of that length by its byte order: `path_writes` is what they are on machines of one byte
/// order. What the writes are, and that different paths make different ones, is not stated.
#[verifier::external_body]
fn hash_path(path: &str, hasher: &mut DefaultHasher)
    ensures
        final(hasher)@ == old(hasher)@ + path_writes(components_of(path@), usize::BITS),
{
    PathBuf::from(path).hash(hasher)
}

/// The hash of a path.
pub open spec fn path_hash(path: Seq<char>) -> u64 {
    DefaultHasher::spec_finish(path_writes(components_of(path), usize::BITS))
}

/// The inode for a hash: the hash itself, but for the two numbers that are kept free.
pub open spec fn ino_for_hash(hash: u64) -> u64 {
    if hash <= 1 {
        (hash + 2) as u64
    } else {
        hash
    }
}

/// The inode of a path.
pub open spec fn ino_of(path: Seq<char>) -> u64 {
    if path == "/"@ {
        ROOT_INO
    } else {
        ino_for_hash(path_hash(path))
    }
}

/// The inode for a hash. It is neither 0 nor the inode of the root.
pub fn hash_to_ino(hash: u64) -> (ino: u64)
    ensures
        ino == ino_for_hash(hash),
        ino > ROOT_INO,
{
    if hash <= 1 {
        hash + 2
    } else {
        hash
    }
}

/// The inode of a path. It depends on the path alone, is never 0, and is that of the root for the
/// root only.
pub fn path_to_ino(path: &str) -> (ino: u64)
    ensures
        ino == ino_of(path@),
        ino != 0,
        ino == ROOT_INO <==> path@ == "/"@,
{
    if same_text(path, "/") {
        return ROOT_INO;
    }
    let mut hasher = DefaultHasher::new();
    hash_path(path, &mut hasher);
    assert(hasher@ == path_writes(components_of(path@), usize::BITS));
    hash_to_ino(hasher.finish())
}

/// No path has the inode 0, and no path but the root has the root's.
pub proof fn law_root_inode_is_its_own(path: Seq<char>)
    ensures
        ino_of(path) != 0,
        ino_of(path) == ROOT_INO <==> path == "/"@,
{
}

/// Texts that are the same path have the same inode, whenever and in whatever order it is asked
/// for. The exception is the root, whose inode goes to the text `/` alone.
pub proof fn law_same_path_has_same_inode(p: Seq<char>, q: Seq<char>)
    requires
        components_of(p) == components_of(q),
        p == "/"@ <==> q == "/"@,
    ensures
        ino_of(p) == ino_of(q),
{
}

/// The inode of a path other than the root is the hash of its components, unless that is one of the
/// two numbers that are kept free; then it is two more.
pub proof fn law_inode_is_the_hash(path: Seq<char>, hash: u64)
    requires
        path != seq!['/'],
        hash == DefaultHasher::spec_finish(path_writes(components_of(path), usize::BITS)),
    ensures
        hash > 1 ==> ino_of(path) == hash,
        hash == 0 ==> ino_of(path) == 2,
        hash == 1 ==> ino_of(path) == 3,
{
    reveal_strlit("/");
    assert("/"@ == seq!['/']);
}

} // verus!
