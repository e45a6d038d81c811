//! The managed `PATH` augmentation: the tooling bin directory prepended to a
//! search path, and its exact removal.
use vstd::prelude::*;
use vstd::string::*;
use crate::text::{chars_of, contains_exec, contains_seq, has_prefix, lemma_contains_suffix_part, lemma_replace_absent, occurs_at, replace_all, replace_all_exec};

verus! {

/// Directory holding the tools that are put in front of the container's `PATH`.
pub const DISTROD_BIN_DIR: &'static str = "/opt/distrod/bin";

/// The tooling bin directory as characters.
pub open spec fn bin_dir() -> Seq<char> {
    DISTROD_BIN_DIR@
}

/// The managed prefix: the bin directory followed by a separator.
pub open spec fn bin_prefix() -> Seq<char> {
    bin_dir() + seq![':']
}

/// The bin directory preceded by a separator.
pub open spec fn bin_suffix() -> Seq<char> {
    seq![':'] + bin_dir()
}

/// `path` with the bin directory put in front.
pub open spec fn with_bin(path: Seq<char>) -> Seq<char> {
    bin_prefix() + path
}

/// `path` with every `<bin>:` and then every `:<bin>` taken out.
pub open spec fn without_bin(path: Seq<char>) -> Seq<char> {
    replace_all(replace_all(path, bin_prefix(), Seq::empty()), bin_suffix(), Seq::empty())
}

/// `path` with the bin directory put in front unless it already holds it.
pub open spec fn ensured_bin(path: Seq<char>) -> Seq<char> {
    if contains_seq(path, bin_dir()) {
        path
    } else {
        with_bin(path)
    }
}

/// How many managed prefixes stand one after another at the start of `path`.
pub open spec fn bin_prefix_count(path: Seq<char>) -> nat
    decreases path.len(),
{
    if path.len() > 0 && has_prefix(path, bin_prefix()) {
        1 + bin_prefix_count(path.subrange(bin_prefix().len() as int, path.len() as int))
    } else {
        0
    }
}

pub proof fn lemma_bin_dir_len()
    ensures
        bin_dir().len() == 16,
{
    reveal_strlit("/opt/distrod/bin");
}

fn prepend_distrod_bin(path: &str) -> (r: String)
    ensures
        r@ == with_bin(path@),
{
    let mut r = String::from_str(DISTROD_BIN_DIR);
    r.append(":");
    proof {
        reveal_strlit(":");
        assert(":"@ =~= seq![':']);
    }
    r.append(path);
    r
}

/// Takes the tooling bin directory out of `path`, with the separator that
/// joined it to its neighbour.
pub fn remove_distrod_bin_from_path(path: &str) -> (r: String)
    ensures
        r@ == without_bin(path@),
{
    proof {
        lemma_bin_dir_len();
        reveal_strlit(":");
    }
    let mut prefix = String::from_str(DISTROD_BIN_DIR);
    prefix.append(":");
    assert(prefix@ =~= bin_prefix());
    let first = replace_all_exec(path, prefix.as_str(), "");
    let mut suffix = String::from_str(":");
    suffix.append(DISTROD_BIN_DIR);
    assert(suffix@ =~= bin_suffix());
    proof {
        reveal_strlit("");
        assert(""@ =~= Seq::<char>::empty());
    }
    replace_all_exec(first.as_str(), suffix.as_str(), "")
}

/// Whether `path` already holds the tooling bin directory.
pub fn path_has_distrod_bin(path: &str) -> (b: bool)
    ensures
        b == contains_seq(path@, bin_dir()),
{
    let pc = chars_of(path);
    let bc = chars_of(DISTROD_BIN_DIR);
    contains_exec(&pc, &bc)
}

/// Puts the tooling bin directory in front of `path` unless it is already
/// there, so that adding it twice is the same as adding it once.
pub fn add_distrod_bin_to_path(path: &str) -> (r: String)
    ensures
        r@ == ensured_bin(path@),
{
    if path_has_distrod_bin(path) {
        String::from_str(path)
    } else {
        prepend_distrod_bin(path)
    }
}

/// Removing the tooling bin directory undoes adding it, for every path that
/// did not hold it already.
pub proof fn lemma_remove_undoes_add(path: Seq<char>)
    requires
        !contains_seq(path, bin_dir()),
    ensures
        without_bin(with_bin(path)) == path,
{
    lemma_bin_dir_len();
    let s = with_bin(path);
    assert(has_prefix(s, bin_prefix())) by {
        assert(s.subrange(0, bin_prefix().len() as int) =~= bin_prefix());
    }
    assert(s.subrange(bin_prefix().len() as int, s.len() as int) =~= path);
    if contains_seq(path, bin_prefix()) {
        lemma_contains_suffix_part(path, bin_dir(), seq![':']);
    }
    lemma_replace_absent(path, bin_prefix(), Seq::empty());
    assert(replace_all(s, bin_prefix(), Seq::empty()) =~= path);
    if contains_seq(path, bin_suffix()) {
        lemma_contains_suffix_part(path, seq![':'], bin_dir());
    }
    lemma_replace_absent(path, bin_suffix(), Seq::empty());
}

/// Adding the bin directory twice is the same as adding it once, and on a
/// path that did not hold it the result starts with exactly one managed prefix.
pub proof fn lemma_add_idempotent(path: Seq<char>)
    ensures
        ensured_bin(ensured_bin(path)) == ensured_bin(path),
        !contains_seq(path, bin_dir()) ==> bin_prefix_count(ensured_bin(path)) == 1,
{
    lemma_bin_dir_len();
    if !contains_seq(path, bin_dir()) {
        let s = with_bin(path);
        assert(s.subrange(0, bin_dir().len() as int) =~= bin_dir());
        assert(occurs_at(s, bin_dir(), 0));
        assert(has_prefix(s, bin_prefix())) by {
            assert(s.subrange(0, bin_prefix().len() as int) =~= bin_prefix());
        }
        assert(s.subrange(bin_prefix().len() as int, s.len() as int) =~= path);
        if has_prefix(path, bin_prefix()) {
            assert(path.subrange(0, bin_dir().len() as int) =~= bin_dir());
            assert(occurs_at(path, bin_dir(), 0));
        }
        assert(bin_prefix_count(path) == 0);
    }
}

} // verus!
