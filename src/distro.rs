//! The distro orchestrator: which rootfs to use, the container's lifecycle,
//! the run-info record, and the edits made to the rootfs on launch and stop.
use vstd::prelude::*;
use vstd::string::*;
use crate::bin_path::{
    add_distrod_bin_to_path, bin_dir, ensured_bin, lemma_bin_dir_len, lemma_remove_undoes_add, path_has_distrod_bin, remove_distrod_bin_from_path,
    with_bin, without_bin,
};
use crate::envfile::{
    entry_line, lemma_entry_line, lemma_last_index_facts, lemma_last_index_is, lemma_line_is_entry,
    lemma_remove_absent, lemma_remove_concat, lemma_sets_only_its_key,
    line_sets, last_index_of_key, is_key, lemma_get_after_put, lemma_get_after_remove, lemma_put_keeps_other, put_lines,
    remove_lines, value_of, EnvFile,
};
use crate::text::{contains_seq, has_prefix, occurs_at};

verus! {

/// Where the host's original root is moved to inside the container.
pub const DISTRO_OLD_ROOT_PATH: &'static str = "/mnt/distrod_root";

/// Where the run-info record is kept.
pub const DISTRO_RUN_INFO_PATH: &'static str = "/var/run/distrod.json";

/// The key of the search path in the environment file.
pub const PATH_KEY: &'static str = "PATH";

/// Why an operation on a distro was refused.
#[derive(Clone, Copy, Debug, PartialEq, Eq, Structural)]
pub enum DistroError {
    /// The rootfs path is not a directory.
    NotADirectory,
    /// The container has no init process yet.
    NotLaunched,
    /// The run-info record is not owned by root user and group.
    UnsafeRunInfoOwner,
}

/// The container's lifecycle state: unlaunched, or launched with its init PID.
pub struct Container {
    init_pid: Option<u32>,
}

impl Container {
    /// The init PID, once launched.
    pub closed spec fn spec_init_pid(&self) -> Option<u32> {
        self.init_pid
    }

    /// A container that has not been launched.
    pub fn new() -> (r: Container)
        ensures
            r.spec_init_pid() is None,
    {
        Container { init_pid: None }
    }

    /// A container bound to an init process that already runs.
    pub fn from_pid(pid: u32) -> (r: Container)
        ensures
            r.spec_init_pid() == Some(pid),
    {
        Container { init_pid: Some(pid) }
    }

    /// The init PID, once launched.
    pub fn init_pid(&self) -> (r: Option<u32>)
        ensures
            r == self.spec_init_pid(),
    {
        self.init_pid
    }
}

/// A distro: its rootfs and the container that runs it.
pub struct Distro {
    rootfs: String,
    container: Container,
}

impl View for Distro {
    /// The rootfs path and the init PID, if launched.
    type V = (Seq<char>, Option<u32>);

    closed spec fn view(&self) -> (Seq<char>, Option<u32>) {
        (self.rootfs@, self.container.spec_init_pid())
    }
}

/// The persisted record of a running distro.
pub struct DistroRunInfo {
    pub rootfs: String,
    pub init_pid: u32,
}

/// The identity a command runs as inside the container.
#[derive(Debug)]
pub struct Credential {
    pub uid: u32,
    pub gid: u32,
    /// Supplementary groups.
    pub groups: Vec<u32>,
}

/// What the caller must do to run a command in the container.
pub struct ExecRequest {
    /// Init process whose namespaces the command enters.
    pub init_pid: u32,
    pub program: String,
    pub args: Vec<String>,
    pub working_dir: Option<String>,
    pub arg0: Option<String>,
    /// The `PATH` the command gets.
    pub path: String,
    /// Who the command runs as; `None` keeps the caller's identity.
    pub cred: Option<Credential>,
}

/// What the caller must do to stop the container.
pub struct StopRequest {
    pub init_pid: u32,
    /// Kill at once instead of asking the init process to end.
    pub sigkill: bool,
}

/// What a step of rootfs initialization does to its target.
#[derive(Clone, Copy, Debug, PartialEq, Eq, Structural)]
pub enum RootfsActionKind {
    /// Remove every file that matches the target pattern.
    RemoveMatching,
    /// Write the host name into the target file.
    WriteHostname,
    /// Replace the target file by an empty one.
    RecreateEmpty,
    /// Disable the target systemd unit.
    DisableUnit,
    /// Mask the target systemd unit.
    MaskUnit,
}

/// One step of rootfs initialization.
pub struct RootfsAction {
    pub kind: RootfsActionKind,
    pub target: String,
}

/// `rel` joined under `base`, as a path join does for a relative `rel`.
pub open spec fn joined(base: Seq<char>, rel: Seq<char>) -> Seq<char> {
    if base.len() == 0 || base.last() == '/' {
        base + rel
    } else {
        base + seq!['/'] + rel
    }
}

/// `path` is the marker or lies below it.
pub open spec fn is_under(path: Seq<char>, marker: Seq<char>) -> bool {
    path == marker || has_prefix(path, marker + seq!['/'])
}

/// The search-path key as characters.
pub open spec fn path_key() -> Seq<char> {
    PATH_KEY@
}

/// The lines after each host variable is put, in order.
pub open spec fn put_all(lines: Seq<Seq<char>>, vars: Seq<(Seq<char>, Seq<char>)>) -> Seq<Seq<char>>
    decreases vars.len(),
{
    if vars.len() == 0 {
        lines
    } else {
        put_lines(put_all(lines, vars.drop_last()), vars.last().0, vars.last().1)
    }
}

/// The lines after each key is removed, in order.
pub open spec fn remove_all(lines: Seq<Seq<char>>, keys: Seq<Seq<char>>) -> Seq<Seq<char>>
    decreases keys.len(),
{
    if keys.len() == 0 {
        lines
    } else {
        remove_lines(remove_all(lines, keys.drop_last()), keys.last())
    }
}

/// The environment file prepared for launch: host variables merged in, and
/// the bin directory in front of `PATH` unless it is already there.
pub open spec fn setup_env(lines: Seq<Seq<char>>, vars: Seq<(Seq<char>, Seq<char>)>) -> Seq<Seq<char>> {
    let l = put_all(lines, vars);
    let p = value_of(l, path_key());
    if p is Some && contains_seq(p->0, bin_dir()) {
        l
    } else {
        put_lines(l, path_key(), with_bin(if p is Some { p->0 } else { Seq::empty() }))
    }
}

/// The environment file cleaned on stop: host variables taken out, and the
/// bin directory taken out of `PATH`; where nothing else was left in `PATH`,
/// its entry goes too.
pub open spec fn cleanup_env(lines: Seq<Seq<char>>, keys: Seq<Seq<char>>) -> Seq<Seq<char>> {
    let l = remove_all(lines, keys);
    let p = value_of(l, path_key());
    if p is Some && contains_seq(p->0, bin_dir()) {
        if without_bin(p->0).len() == 0 {
            remove_lines(l, path_key())
        } else {
            put_lines(l, path_key(), without_bin(p->0))
        }
    } else {
        l
    }
}

/// The host variables as character pairs.
pub open spec fn vars_view(vars: Seq<(String, String)>) -> Seq<(Seq<char>, Seq<char>)> {
    vars.map_values(|p: (String, String)| (p.0@, p.1@))
}

/// The keys as characters.
pub open spec fn keys_view(keys: Seq<String>) -> Seq<Seq<char>> {
    keys.map_values(|k: String| k@)
}

/// Every host variable has a proper key other than `PATH`.
pub open spec fn vars_are_plain(vars: Seq<(Seq<char>, Seq<char>)>) -> bool {
    forall|i: int| 0 <= i < vars.len() ==> is_key(#[trigger] vars[i].0) && vars[i].0 != path_key()
}

/// The keys of the host variables.
pub open spec fn var_keys(vars: Seq<(Seq<char>, Seq<char>)>) -> Seq<Seq<char>> {
    vars.map_values(|p: (Seq<char>, Seq<char>)| p.0)
}

proof fn lemma_put_all_keeps_path(lines: Seq<Seq<char>>, vars: Seq<(Seq<char>, Seq<char>)>)
    requires
        vars_are_plain(vars),
    ensures
        value_of(put_all(lines, vars), path_key()) == value_of(lines, path_key()),
    decreases vars.len(),
{
    if vars.len() > 0 {
        let d = vars.drop_last();
        assert(vars_are_plain(d)) by {
            assert forall|i: int| 0 <= i < d.len() implies is_key(#[trigger] d[i].0) && d[i].0
                != path_key() by {
                assert(d[i] == vars[i]);
            }
        }
        lemma_put_all_keeps_path(lines, d);
        assert(is_key(vars[vars.len() - 1].0));
        lemma_put_keeps_other(put_all(lines, d), vars.last().0, vars.last().1, path_key());
    }
}

proof fn lemma_remove_all_effect(lines: Seq<Seq<char>>, keys: Seq<Seq<char>>, k: Seq<char>)
    ensures
        keys.contains(k) ==> value_of(remove_all(lines, keys), k) is None,
        !keys.contains(k) ==> value_of(remove_all(lines, keys), k) == value_of(lines, k),
    decreases keys.len(),
{
    if keys.len() > 0 {
        let d = keys.drop_last();
        lemma_remove_all_effect(lines, d, k);
        lemma_get_after_remove(remove_all(lines, d), keys.last(), k);
        if keys.contains(k) && k != keys.last() {
            let i = choose|i: int| 0 <= i < keys.len() && keys[i] == k;
            assert(d[i] == k);
        }
        if d.contains(k) {
            let i = choose|i: int| 0 <= i < d.len() && d[i] == k;
            assert(keys[i] == k);
        }
        if k == keys.last() {
            assert(keys[keys.len() - 1] == k);
        }
    }
}

/// Cleaning the environment file on stop undoes preparing it on launch:
/// preparing puts the bin directory in front of `PATH`, and cleaning then
/// leaves no host variable and gives `PATH` back as it was, absent where it
/// was not set. This holds where the file's `PATH`, if set, is not empty and
/// did not already hold the bin directory.
pub proof fn lemma_cleanup_undoes_setup(lines: Seq<Seq<char>>, vars: Seq<(Seq<char>, Seq<char>)>)
    requires
        vars_are_plain(vars),
        match value_of(lines, path_key()) {
            Some(p) => !contains_seq(p, bin_dir()) && p.len() > 0,
            None => true,
        },
    ensures
        value_of(setup_env(lines, vars), path_key()) == Some(
            with_bin(
                match value_of(lines, path_key()) {
                    Some(p) => p,
                    None => Seq::<char>::empty(),
                },
            ),
        ),
        value_of(cleanup_env(setup_env(lines, vars), var_keys(vars)), path_key()) == value_of(
            lines,
            path_key(),
        ),
        forall|i: int|
            0 <= i < vars.len() ==> value_of(
                cleanup_env(setup_env(lines, vars), var_keys(vars)),
                #[trigger] vars[i].0,
            ) is None,
{
    reveal_strlit("PATH");
    lemma_bin_dir_len();
    let pk = path_key();
    assert(is_key(pk)) by {
        assert(!pk.contains('='));
    }
    let o = match value_of(lines, pk) {
        Some(p) => p,
        None => Seq::<char>::empty(),
    };
    assert(!contains_seq(o, bin_dir()));
    let l1 = put_all(lines, vars);
    lemma_put_all_keeps_path(lines, vars);
    let l2 = setup_env(lines, vars);
    assert(l2 == put_lines(l1, pk, with_bin(o)));
    lemma_get_after_put(l1, pk, with_bin(o));
    let keys = var_keys(vars);
    assert(!keys.contains(pk));
    let l3 = remove_all(l2, keys);
    lemma_remove_all_effect(l2, keys, pk);
    let w = with_bin(o);
    assert(w.subrange(0, bin_dir().len() as int) =~= bin_dir());
    assert(occurs_at(w, bin_dir(), 0));
    lemma_remove_undoes_add(o);
    let r = cleanup_env(l2, keys);
    if o.len() == 0 {
        assert(r == remove_lines(l3, pk));
        lemma_get_after_remove(l3, pk, pk);
    } else {
        assert(r == put_lines(l3, pk, o));
        lemma_get_after_put(l3, pk, o);
    }
    assert forall|i: int| 0 <= i < vars.len() implies value_of(r, #[trigger] vars[i].0) is None by {
        assert(keys[i] == vars[i].0);
        lemma_remove_all_effect(l2, keys, vars[i].0);
        if o.len() == 0 {
            lemma_get_after_remove(l3, pk, vars[i].0);
        } else {
            lemma_put_keeps_other(l3, pk, o, vars[i].0);
        }
    }
}

/// `line` sets one of `keys`.
pub open spec fn sets_some(line: Seq<char>, keys: Seq<Seq<char>>) -> bool {
    exists|i: int| 0 <= i < keys.len() && line_sets(line, #[trigger] keys[i])
}

proof fn lemma_remove_all_concat(a: Seq<Seq<char>>, b: Seq<Seq<char>>, keys: Seq<Seq<char>>)
    ensures
        remove_all(a + b, keys) == remove_all(a, keys) + remove_all(b, keys),
    decreases keys.len(),
{
    if keys.len() > 0 {
        lemma_remove_all_concat(a, b, keys.drop_last());
        lemma_remove_concat(remove_all(a, keys.drop_last()), remove_all(b, keys.drop_last()), keys.last());
    }
}

proof fn lemma_remove_all_free(a: Seq<Seq<char>>, keys: Seq<Seq<char>>)
    requires
        forall|j: int| 0 <= j < a.len() ==> !sets_some(#[trigger] a[j], keys),
    ensures
        remove_all(a, keys) == a,
    decreases keys.len(),
{
    if keys.len() > 0 {
        let d = keys.drop_last();
        assert forall|j: int| 0 <= j < a.len() implies !sets_some(#[trigger] a[j], d) by {
            if sets_some(a[j], d) {
                let i = choose|i: int| 0 <= i < d.len() && line_sets(a[j], #[trigger] d[i]);
                assert(keys[i] == d[i]);
            }
        }
        lemma_remove_all_free(a, d);
        assert forall|j: int| 0 <= j < a.len() implies !line_sets(#[trigger] a[j], keys.last()) by {
            if line_sets(a[j], keys.last()) {
                assert(line_sets(a[j], keys[keys.len() - 1]));
            }
        }
        lemma_remove_absent(a, keys.last());
    }
}

proof fn lemma_remove_lines_keeps(a: Seq<Seq<char>>, k: Seq<char>, kk: Seq<Seq<char>>, dk: Seq<Seq<char>>)
    requires
        forall|j: int| 0 <= j < a.len() ==> sets_some(#[trigger] a[j], kk) && !sets_some(a[j], dk),
    ensures
        forall|j: int|
            0 <= j < remove_lines(a, k).len() ==> sets_some(#[trigger] remove_lines(a, k)[j], kk)
                && !sets_some(remove_lines(a, k)[j], dk) && !line_sets(remove_lines(a, k)[j], k),
    decreases a.len(),
{
    if a.len() > 0 {
        let d = a.drop_last();
        assert forall|j: int| 0 <= j < d.len() implies sets_some(#[trigger] d[j], kk) && !sets_some(d[j], dk) by {
            assert(d[j] == a[j]);
        }
        lemma_remove_lines_keeps(d, k, kk, dk);
        let r = remove_lines(a, k);
        assert forall|j: int| 0 <= j < r.len() implies sets_some(#[trigger] r[j], kk) && !sets_some(r[j], dk)
            && !line_sets(r[j], k) by {
            if j < remove_lines(d, k).len() {
                assert(r[j] == remove_lines(d, k)[j]);
            } else {
                assert(r[j] == a[a.len() - 1]);
            }
        }
    }
}

proof fn lemma_remove_all_keeps(b: Seq<Seq<char>>, keys: Seq<Seq<char>>, kk: Seq<Seq<char>>)
    requires
        forall|j: int| 0 <= j < b.len() ==> sets_some(#[trigger] b[j], kk),
    ensures
        forall|j: int|
            0 <= j < remove_all(b, keys).len() ==> sets_some(#[trigger] remove_all(b, keys)[j], kk)
                && !sets_some(remove_all(b, keys)[j], keys),
    decreases keys.len(),
{
    if keys.len() > 0 {
        let d = keys.drop_last();
        lemma_remove_all_keeps(b, d, kk);
        let r0 = remove_all(b, d);
        lemma_remove_lines_keeps(r0, keys.last(), kk, d);
        let r = remove_all(b, keys);
        assert forall|j: int| 0 <= j < r.len() implies sets_some(#[trigger] r[j], kk) && !sets_some(r[j], keys) by {
            if sets_some(r[j], keys) {
                let i = choose|i: int| 0 <= i < keys.len() && line_sets(r[j], #[trigger] keys[i]);
                if i < d.len() {
                    assert(d[i] == keys[i]);
                    assert(sets_some(r[j], d));
                } else {
                    assert(keys[i] == keys.last());
                }
            }
        }
    } else {
        let r = remove_all(b, keys);
        assert forall|j: int| 0 <= j < r.len() implies sets_some(#[trigger] r[j], kk) && !sets_some(r[j], keys) by {
            assert(r[j] == b[j]);
        }
    }
}

proof fn lemma_remove_all_covered(b: Seq<Seq<char>>, keys: Seq<Seq<char>>)
    requires
        forall|j: int| 0 <= j < b.len() ==> sets_some(#[trigger] b[j], keys),
    ensures
        remove_all(b, keys) == Seq::<Seq<char>>::empty(),
{
    lemma_remove_all_keeps(b, keys, keys);
    if remove_all(b, keys).len() > 0 {
        assert(sets_some(remove_all(b, keys)[0], keys));
    }
    assert(remove_all(b, keys) =~= Seq::<Seq<char>>::empty());
}

proof fn lemma_put_all_shape(e: Seq<Seq<char>>, vars: Seq<(Seq<char>, Seq<char>)>)
    requires
        vars_are_plain(vars),
        forall|j: int| 0 <= j < e.len() ==> !sets_some(#[trigger] e[j], var_keys(vars)),
    ensures
        put_all(e, vars).len() >= e.len(),
        put_all(e, vars).subrange(0, e.len() as int) == e,
        forall|j: int|
            e.len() <= j < put_all(e, vars).len() ==> sets_some(#[trigger] put_all(e, vars)[j], var_keys(vars)),
    decreases vars.len(),
{
    let keys = var_keys(vars);
    if vars.len() == 0 {
        assert(put_all(e, vars).subrange(0, e.len() as int) =~= e);
    } else {
        let d = vars.drop_last();
        let dk = var_keys(d);
        assert(vars_are_plain(d)) by {
            assert forall|i: int| 0 <= i < d.len() implies is_key(#[trigger] d[i].0) && d[i].0
                != path_key() by {
                assert(d[i] == vars[i]);
            }
        }
        assert forall|j: int| 0 <= j < e.len() implies !sets_some(#[trigger] e[j], dk) by {
            if sets_some(e[j], dk) {
                let i = choose|i: int| 0 <= i < dk.len() && line_sets(e[j], #[trigger] dk[i]);
                assert(keys[i] == dk[i]);
            }
        }
        lemma_put_all_shape(e, d);
        let l = put_all(e, d);
        let k = vars.last().0;
        let v = vars.last().1;
        assert(keys[vars.len() - 1] == k);
        assert(is_key(vars[vars.len() - 1].0));
        lemma_entry_line(k, v);
        lemma_last_index_facts(l, k);
        let i = last_index_of_key(l, k);
        if 0 <= i < e.len() {
            assert(l[i] == l.subrange(0, e.len() as int)[i]);
            assert(sets_some(e[i], keys));
        }
        let r = put_all(e, vars);
        assert(r.subrange(0, e.len() as int) =~= e) by {
            assert forall|j: int| 0 <= j < e.len() implies r[j] == e[j] by {
                assert(l[j] == l.subrange(0, e.len() as int)[j]);
            }
        }
        assert forall|j: int| e.len() <= j < r.len() implies sets_some(#[trigger] r[j], keys) by {
            if (i >= 0 && j == i) || (i < 0 && j == l.len()) {
                assert(line_sets(r[j], keys[vars.len() - 1]));
            } else {
                assert(r[j] == l[j]);
                let m = choose|m: int| 0 <= m < dk.len() && line_sets(l[j], #[trigger] dk[m]);
                assert(keys[m] == dk[m]);
            }
        }
    }
}

/// Preparing the environment file on launch and cleaning it on stop gives
/// back the file line for line, where no line of it sets a host variable and
/// its `PATH`, if set, is not empty and does not hold the bin directory.
pub proof fn lemma_cleanup_restores_lines(lines: Seq<Seq<char>>, vars: Seq<(Seq<char>, Seq<char>)>)
    requires
        vars_are_plain(vars),
        forall|j: int, i: int|
            0 <= j < lines.len() && 0 <= i < vars.len() ==> !line_sets(#[trigger] lines[j], #[trigger] vars[i].0),
        match value_of(lines, path_key()) {
            Some(p) => !contains_seq(p, bin_dir()) && p.len() > 0,
            None => true,
        },
    ensures
        cleanup_env(setup_env(lines, vars), var_keys(vars)) == lines,
{
    reveal_strlit("PATH");
    lemma_bin_dir_len();
    let pk = path_key();
    assert(is_key(pk)) by {
        assert(!pk.contains('='));
    }
    let keys = var_keys(vars);
    assert forall|j: int| 0 <= j < lines.len() implies !sets_some(#[trigger] lines[j], keys) by {
        if sets_some(lines[j], keys) {
            let i = choose|i: int| 0 <= i < keys.len() && line_sets(lines[j], #[trigger] keys[i]);
            assert(keys[i] == vars[i].0);
        }
    }
    // a line that sets PATH sets no host key, and the reverse
    assert forall|line: Seq<char>| line_sets(line, pk) implies !sets_some(line, keys) by {
        if sets_some(line, keys) {
            let i = choose|i: int| 0 <= i < keys.len() && line_sets(line, #[trigger] keys[i]);
            assert(keys[i] == vars[i].0);
            lemma_sets_only_its_key(line, pk, keys[i]);
        }
    }
    lemma_put_all_shape(lines, vars);
    let l1 = put_all(lines, vars);
    let n = lines.len() as int;
    let x = l1.subrange(n, l1.len() as int);
    assert(l1 =~= lines + x);
    assert forall|j: int| 0 <= j < x.len() implies sets_some(#[trigger] x[j], keys) by {
        assert(x[j] == l1[n + j]);
    }
    assert forall|j: int| 0 <= j < x.len() implies !line_sets(#[trigger] x[j], pk) by {
        assert(x[j] == l1[n + j]);
    }
    lemma_last_index_facts(lines, pk);
    let i = last_index_of_key(lines, pk);
    assert forall|j: int| i < j < l1.len() implies !line_sets(#[trigger] l1[j], pk) by {
        if j < n {
            assert(l1[j] == lines[j]);
        } else {
            assert(l1[j] == x[j - n]);
        }
    }
    if i >= 0 {
        assert(l1[i] == lines[i]);
    }
    lemma_last_index_is(l1, pk, i);
    lemma_put_all_keeps_path(lines, vars);
    let o = match value_of(lines, pk) {
        Some(p) => p,
        None => Seq::<char>::empty(),
    };
    assert(!contains_seq(o, bin_dir()));
    let w = with_bin(o);
    let pl = entry_line(pk, w);
    lemma_entry_line(pk, w);
    let l2 = setup_env(lines, vars);
    assert(l2 == put_lines(l1, pk, w));
    assert(w.subrange(0, bin_dir().len() as int) =~= bin_dir());
    assert(occurs_at(w, bin_dir(), 0));
    lemma_remove_undoes_add(o);
    if i >= 0 {
        let e2 = lines.update(i, pl);
        assert(l2 =~= e2 + x);
        assert forall|j: int| 0 <= j < e2.len() implies !sets_some(#[trigger] e2[j], keys) by {
            if j != i {
                assert(e2[j] == lines[j]);
            }
        }
        lemma_remove_all_concat(e2, x, keys);
        lemma_remove_all_free(e2, keys);
        lemma_remove_all_covered(x, keys);
        let l3 = remove_all(l2, keys);
        assert(l3 =~= e2);
        assert forall|j: int| i < j < e2.len() implies !line_sets(#[trigger] e2[j], pk) by {
            assert(e2[j] == lines[j]);
        }
        lemma_last_index_is(e2, pk, i);
        assert(value_of(l3, pk) == Some(w));
        lemma_line_is_entry(lines[i], pk);
        assert(e2.update(i, entry_line(pk, o)) =~= lines);
    } else {
        let tail = seq![pl];
        assert(l2 =~= lines + (x + tail));
        assert(x + tail =~= x.push(pl));
        assert forall|j: int| 0 <= j < (x + tail).len() implies sets_some(#[trigger] (x + tail)[j], keys)
            || line_sets((x + tail)[j], pk) by {
            if j < x.len() {
                assert((x + tail)[j] == x[j]);
            }
        }
        lemma_remove_all_concat(lines, x + tail, keys);
        lemma_remove_all_concat(x, tail, keys);
        lemma_remove_all_free(lines, keys);
        lemma_remove_all_covered(x, keys);
        assert forall|j: int| 0 <= j < tail.len() implies !sets_some(#[trigger] tail[j], keys) by {
            assert(tail[j] == pl);
        }
        lemma_remove_all_free(tail, keys);
        let l3 = remove_all(l2, keys);
        assert(l3 =~= lines.push(pl));
        lemma_last_index_is(l3, pk, n);
        assert(value_of(l3, pk) == Some(w));
        assert(without_bin(w) =~= Seq::<char>::empty());
        assert(l3 =~= lines + tail);
        lemma_remove_concat(lines, tail, pk);
        assert forall|j: int| 0 <= j < lines.len() implies !line_sets(#[trigger] lines[j], pk) by {}
        lemma_remove_absent(lines, pk);
        assert(tail.drop_last() =~= Seq::<Seq<char>>::empty());
        assert(tail.last() == pl);
        assert(remove_lines(tail.drop_last(), pk) == tail.drop_last());
        assert(remove_lines(tail, pk) =~= Seq::<Seq<char>>::empty());
        assert(lines + Seq::<Seq<char>>::empty() =~= lines);
    }
}

/// Joins a relative path under `base`.
pub fn join_path(base: &str, rel: &str) -> (r: String)
    ensures
        r@ == joined(base@, rel@),
{
    let n = base.unicode_len();
    let mut r = String::from_str(base);
    if n > 0 && base.get_char(n - 1) != '/' {
        r.append("/");
        proof {
            reveal_strlit("/");
            assert("/"@ =~= seq!['/']);
        }
    }
    r.append(rel);
    r
}

fn is_under_exec(path: &str, marker: &str) -> (b: bool)
    ensures
        b == is_under(path@, marker@),
{
    let pc = crate::text::chars_of(path);
    let mut m = String::from_str(marker);
    m.append("/");
    proof {
        reveal_strlit("/");
        assert(m@ =~= marker@ + seq!['/']);
    }
    let mc = crate::text::chars_of(m.as_str());
    let mk = crate::text::chars_of(marker);
    let mut same = pc.len() == mk.len();
    if same {
        same = crate::text::occurs_at_exec(&pc, &mk, 0);
        proof {
            if same {
                assert(pc@.subrange(0, mk@.len() as int) =~= pc@);
            }
        }
    }
    if same {
        return true;
    }
    proof {
        if path@ == marker@ {
            assert(pc@.subrange(0, mk@.len() as int) =~= pc@);
        }
    }
    crate::text::occurs_at_exec(&pc, &mc, 0)
}

fn any_under_old_root(m: &Vec<String>) -> (r: bool)
    ensures
        r == exists|i: int| 0 <= i < m@.len() && is_under(m@[i]@, DISTRO_OLD_ROOT_PATH@),
{
    let mut i: usize = 0;
    while i < m.len()
        invariant
            i <= m@.len(),
            forall|j: int| 0 <= j < i ==> !is_under(#[trigger] m@[j]@, DISTRO_OLD_ROOT_PATH@),
        decreases m.len() - i,
    {
        if is_under_exec(m[i].as_str(), DISTRO_OLD_ROOT_PATH) {
            assert(0 <= i < m@.len() && is_under(m@[i as int]@, DISTRO_OLD_ROOT_PATH@));
            return true;
        }
        i = i + 1;
    }
    false
}

/// Refuses a run-info record that is not owned by root user and group.
pub fn check_run_info_owner(uid: u32, gid: u32) -> (r: Result<(), DistroError>)
    ensures
        r == (if uid == 0 && gid == 0 {
            Ok::<(), DistroError>(())
        } else {
            Err(DistroError::UnsafeRunInfoOwner)
        }),
{
    if uid != 0 || gid != 0 {
        Err(DistroError::UnsafeRunInfoOwner)
    } else {
        Ok(())
    }
}

/// Merges the host variables into the environment file and puts the bin
/// directory in front of its `PATH` unless it is already there.
pub fn setup_etc_environment_file(env: &mut EnvFile, host_envs: &Vec<(String, String)>)
    ensures
        final(env)@ == setup_env(old(env)@, vars_view(host_envs@)),
{
    let mut i: usize = 0;
    let ghost start = env@;
    while i < host_envs.len()
        invariant
            i <= host_envs@.len(),
            env@ == put_all(start, vars_view(host_envs@).subrange(0, i as int)),
        decreases host_envs.len() - i,
    {
        let pair = &host_envs[i];
        env.put(pair.0.as_str(), pair.1.as_str());
        proof {
            let pre = vars_view(host_envs@).subrange(0, i + 1);
            assert(pre.drop_last() =~= vars_view(host_envs@).subrange(0, i as int));
        }
        i = i + 1;
    }
    assert(vars_view(host_envs@).subrange(0, i as int) =~= vars_view(host_envs@));
    let current = env.get(PATH_KEY);
    let has_bin = match &current {
        Some(p) => path_has_distrod_bin(p.as_str()),
        None => false,
    };
    if !has_bin {
        let base = match &current {
            Some(p) => String::from_str(p.as_str()),
            None => String::new(),
        };
        proof {
            lemma_bin_dir_len();
            assert(!contains_seq(base@, bin_dir()));
        }
        let path = add_distrod_bin_to_path(base.as_str());
        env.put(PATH_KEY, path.as_str());
    }
}

/// Takes the host variables out of the environment file and the bin
/// directory out of its `PATH`.
pub fn cleanup_etc_environment_file(env: &mut EnvFile, host_env_keys: &Vec<String>)
    ensures
        final(env)@ == cleanup_env(old(env)@, keys_view(host_env_keys@)),
{
    let mut i: usize = 0;
    let ghost start = env@;
    while i < host_env_keys.len()
        invariant
            i <= host_env_keys@.len(),
            env@ == remove_all(start, keys_view(host_env_keys@).subrange(0, i as int)),
        decreases host_env_keys.len() - i,
    {
        env.remove(host_env_keys[i].as_str());
        proof {
            let pre = keys_view(host_env_keys@).subrange(0, i + 1);
            assert(pre.drop_last() =~= keys_view(host_env_keys@).subrange(0, i as int));
        }
        i = i + 1;
    }
    assert(keys_view(host_env_keys@).subrange(0, i as int) =~= keys_view(host_env_keys@));
    let current = env.get(PATH_KEY);
    if let Some(p) = current {
        if path_has_distrod_bin(p.as_str()) {
            let path = remove_distrod_bin_from_path(p.as_str());
            if path.as_str().unicode_len() == 0 {
                env.remove(PATH_KEY);
            } else {
                env.put(PATH_KEY, path.as_str());
            }
        }
    }
}


/// A step of rootfs initialization as its kind and target.
pub open spec fn action_view(a: RootfsAction) -> (RootfsActionKind, Seq<char>) {
    (a.kind, a.target@)
}

/// The steps that initialize the rootfs at `rootfs`.
pub open spec fn rootfs_steps(rootfs: Seq<char>, overwrites_potential_userfiles: bool) -> Seq<
    (RootfsActionKind, Seq<char>),
> {
    let head = seq![
        (RootfsActionKind::RemoveMatching, joined(rootfs, "etc/systemd/network/*.network"@)),
        (RootfsActionKind::WriteHostname, joined(rootfs, "etc/hostname"@)),
    ];
    let overwrites = seq![
        (RootfsActionKind::RecreateEmpty, joined(rootfs, "etc/resolv.conf"@)),
        (RootfsActionKind::DisableUnit, "dhcpcd.service"@),
        (RootfsActionKind::DisableUnit, "NetworkManager.service"@),
        (RootfsActionKind::DisableUnit, "multipathd.service"@),
        (RootfsActionKind::MaskUnit, "systemd-remount-fs.service"@),
        (RootfsActionKind::MaskUnit, "systemd-modules-load.service"@),
    ];
    if overwrites_potential_userfiles {
        head + overwrites
    } else {
        head
    }
}

/// Rootfs initialization: refused unless the rootfs is a directory.
pub open spec fn rootfs_plan(rootfs: Seq<char>, is_dir: bool, overwrites_potential_userfiles: bool) -> Result<
    Seq<(RootfsActionKind, Seq<char>)>,
    DistroError,
> {
    if is_dir {
        Ok(rootfs_steps(rootfs, overwrites_potential_userfiles))
    } else {
        Err(DistroError::NotADirectory)
    }
}

/// The distro found at `rootfs`: unlaunched, and only where it is a directory.
pub open spec fn installed_distro(rootfs: Seq<char>, is_dir: bool) -> Option<(Seq<char>, Option<u32>)> {
    if is_dir {
        Some((rootfs, None))
    } else {
        None
    }
}

fn push_action(v: &mut Vec<RootfsAction>, kind: RootfsActionKind, target: String)
    ensures
        final(v)@.map_values(|a: RootfsAction| action_view(a)) == old(v)@.map_values(
            |a: RootfsAction| action_view(a),
        ).push((kind, target@)),
{
    v.push(RootfsAction { kind, target });
    assert(final(v)@.map_values(|a: RootfsAction| action_view(a)) =~= old(v)@.map_values(
        |a: RootfsAction| action_view(a),
    ).push((kind, target@)));
}

/// The steps that prepare a rootfs for use: remove its systemd network
/// configuration, write the host name, recreate `resolv.conf` when user files
/// may be overwritten, and disable or mask the units that do not work in the
/// container. Refused unless the rootfs is a directory.
pub fn initialize_distro_rootfs(rootfs: &str, rootfs_is_dir: bool, overwrites_potential_userfiles: bool) -> (r: Result<Vec<RootfsAction>, DistroError>)
    ensures
        match r {
            Ok(v) => rootfs_plan(rootfs@, rootfs_is_dir, overwrites_potential_userfiles) == Ok::<
                Seq<(RootfsActionKind, Seq<char>)>,
                DistroError,
            >(v@.map_values(|a: RootfsAction| action_view(a))),
            Err(e) => rootfs_plan(rootfs@, rootfs_is_dir, overwrites_potential_userfiles) == Err::<
                Seq<(RootfsActionKind, Seq<char>)>,
                DistroError,
            >(e),
        },
{
    if !rootfs_is_dir {
        return Err(DistroError::NotADirectory);
    }
    let mut v: Vec<RootfsAction> = Vec::new();
    push_action(&mut v, RootfsActionKind::RemoveMatching, join_path(rootfs, "etc/systemd/network/*.network"));
    push_action(&mut v, RootfsActionKind::WriteHostname, join_path(rootfs, "etc/hostname"));
    if overwrites_potential_userfiles {
        push_action(&mut v, RootfsActionKind::RecreateEmpty, join_path(rootfs, "etc/resolv.conf"));
        push_action(&mut v, RootfsActionKind::DisableUnit, String::from_str("dhcpcd.service"));
        push_action(&mut v, RootfsActionKind::DisableUnit, String::from_str("NetworkManager.service"));
        push_action(&mut v, RootfsActionKind::DisableUnit, String::from_str("multipathd.service"));
        push_action(&mut v, RootfsActionKind::MaskUnit, String::from_str("systemd-remount-fs.service"));
        push_action(&mut v, RootfsActionKind::MaskUnit, String::from_str("systemd-modules-load.service"));
    }
    assert(v@.map_values(|a: RootfsAction| action_view(a)) =~= rootfs_steps(rootfs@, overwrites_potential_userfiles));
    Ok(v)
}

/// The environment file whose injected entries are to be taken out of the
/// rootfs at `rootfs`. Refused unless the rootfs is a directory.
pub fn cleanup_distro_rootfs(rootfs: &str, rootfs_is_dir: bool) -> (r: Result<String, DistroError>)
    ensures
        match r {
            Ok(p) => rootfs_is_dir && p@ == joined(rootfs@, "etc/environment"@),
            Err(e) => !rootfs_is_dir && e == DistroError::NotADirectory,
        },
{
    if !rootfs_is_dir {
        return Err(DistroError::NotADirectory);
    }
    Ok(join_path(rootfs, "etc/environment"))
}

/// A path that is not a directory yields no installed distro and no rootfs
/// initialization.
pub proof fn lemma_non_directory_rejected(rootfs: Seq<char>, overwrites_potential_userfiles: bool)
    ensures
        installed_distro(rootfs, false) is None,
        rootfs_plan(rootfs, false, overwrites_potential_userfiles) == Err::<
            Seq<(RootfsActionKind, Seq<char>)>,
            DistroError,
        >(DistroError::NotADirectory),
{
}

impl Distro {
    /// The distro at `rootfs`, unlaunched; `None` where `rootfs` is not a directory.
    pub fn get_installed_distro(rootfs: String, rootfs_is_dir: bool) -> (r: Option<Distro>)
        ensures
            match r {
                Some(d) => installed_distro(rootfs@, rootfs_is_dir) == Some(d@),
                None => installed_distro(rootfs@, rootfs_is_dir) is None,
            },
    {
        if !rootfs_is_dir {
            return None;
        }
        Some(Distro { rootfs, container: Container::new() })
    }

    /// The distro that a run-info record describes, given whether its init
    /// process still runs; `None` where there is no record or it is stale.
    pub fn get_running_distro(record: Option<DistroRunInfo>, init_alive: bool) -> (r: Option<Distro>)
        ensures
            match record {
                None => r is None,
                Some(rec) => if init_alive {
                    r is Some && r->0@ == (rec.rootfs@, Some(rec.init_pid))
                } else {
                    r is None
                },
            },
    {
        match record {
            None => None,
            Some(rec) => {
                if !init_alive {
                    return None;
                }
                Some(Distro { rootfs: rec.rootfs, container: Container::from_pid(rec.init_pid) })
            },
        }
    }

    /// Whether this process runs inside a launched distro, judged from its
    /// mount points: a mount at or below the old-root marker says so. This is
    /// a heuristic: where the mount table could not be read (`None`) it
    /// answers yes, the safe side.
    pub fn is_inside_running_distro(mount_points: Option<Vec<String>>) -> (r: bool)
        ensures
            match mount_points {
                None => r,
                Some(m) => r == exists|i: int| 0 <= i < m@.len() && is_under(m@[i]@, DISTRO_OLD_ROOT_PATH@),
            },
    {
        match mount_points {
            None => true,
            Some(m) => any_under_old_root(&m),
        }
    }

    /// The rootfs path.
    pub fn rootfs(&self) -> (r: &str)
        ensures
            r@ == self@.0,
    {
        self.rootfs.as_str()
    }

    /// The init PID, once launched.
    pub fn init_pid(&self) -> (r: Option<u32>)
        ensures
            r == self@.1,
    {
        self.container.init_pid()
    }

    /// The environment file of the rootfs.
    pub fn environment_file_path(&self) -> (r: String)
        ensures
            r@ == joined(self@.0, "etc/environment"@),
    {
        join_path(self.rootfs.as_str(), "etc/environment")
    }

    /// The record to persist for this distro; refused before launch.
    pub fn export_run_info(&self) -> (r: Result<DistroRunInfo, DistroError>)
        ensures
            match r {
                Ok(info) => self@.1 == Some(info.init_pid) && info.rootfs@ == self@.0,
                Err(e) => self@.1 is None && e == DistroError::NotLaunched,
            },
    {
        match self.container.init_pid() {
            None => Err(DistroError::NotLaunched),
            Some(pid) => Ok(DistroRunInfo { rootfs: self.rootfs.clone(), init_pid: pid }),
        }
    }

    /// Records that the container's init process started as `init_pid`, and
    /// gives the run-info record to persist.
    pub fn launch(&mut self, init_pid: u32) -> (r: Result<DistroRunInfo, DistroError>)
        ensures
            final(self)@ == (old(self)@.0, Some(init_pid)),
            r is Ok && r->Ok_0.rootfs@ == old(self)@.0 && r->Ok_0.init_pid == init_pid,
    {
        self.container = Container::from_pid(init_pid);
        self.export_run_info()
    }

    /// What to run for a command in the container: the bin directory is put
    /// in front of the caller's `PATH` unless it is already there. Refused before launch.
    pub fn exec_command(
        &self,
        command: String,
        args: Vec<String>,
        wd: Option<String>,
        arg0: Option<String>,
        cred: Option<Credential>,
        host_path: Option<String>,
    ) -> (r: Result<ExecRequest, DistroError>)
        ensures
            match r {
                Ok(req) => self@.1 == Some(req.init_pid) && req.program@ == command@ && req.args@
                    == args@ && req.working_dir == wd && req.arg0 == arg0 && req.cred == cred && req.path@
                    == ensured_bin(
                    match host_path {
                        Some(p) => p@,
                        None => Seq::<char>::empty(),
                    },
                ),
                Err(e) => self@.1 is None && e == DistroError::NotLaunched,
            },
    {
        let init_pid = match self.container.init_pid() {
            None => return Err(DistroError::NotLaunched),
            Some(pid) => pid,
        };
        proof {
            reveal_strlit("");
            assert(""@ =~= Seq::<char>::empty());
        }
        let path = match &host_path {
            Some(p) => add_distrod_bin_to_path(p.as_str()),
            None => add_distrod_bin_to_path(""),
        };
        Ok(ExecRequest { init_pid, program: command, args, working_dir: wd, arg0, path, cred })
    }

    /// Consumes the distro and says which init process to end, and how.
    /// Refused before launch.
    pub fn stop(self, sigkill: bool) -> (r: Result<StopRequest, DistroError>)
        ensures
            match r {
                Ok(req) => self@.1 == Some(req.init_pid) && req.sigkill == sigkill,
                Err(e) => self@.1 is None && e == DistroError::NotLaunched,
            },
    {
        match self.container.init_pid() {
            None => Err(DistroError::NotLaunched),
            Some(pid) => Ok(StopRequest { init_pid: pid, sigkill }),
        }
    }
}

} // verus!
