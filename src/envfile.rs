//! Structural editing of a `KEY=VALUE` environment file: unrelated lines are
//! kept as they are and in their order; only the keys that are put or removed
//! are rewritten.
use vstd::prelude::*;
use vstd::string::*;
use crate::text::chars_of;

verus! {

/// A key that can stand at the start of an entry line: not empty, not a
/// comment, without `=`.
pub open spec fn is_key(k: Seq<char>) -> bool {
    k.len() > 0 && k[0] != '#' && !k.contains('=')
}

/// `line` is an entry that sets `k`.
pub open spec fn line_sets(line: Seq<char>, k: Seq<char>) -> bool {
    is_key(k) && k.len() < line.len() && line.subrange(0, k.len() as int) == k
        && line[k.len() as int] == '='
}

/// The line `k=v`.
pub open spec fn entry_line(k: Seq<char>, v: Seq<char>) -> Seq<char> {
    k + seq!['='] + v
}

/// Index of the last line that sets `k`, or -1 if none does.
pub open spec fn last_index_of_key(lines: Seq<Seq<char>>, k: Seq<char>) -> int
    decreases lines.len(),
{
    if lines.len() == 0 {
        -1
    } else if line_sets(lines.last(), k) {
        lines.len() - 1
    } else {
        last_index_of_key(lines.drop_last(), k)
    }
}

/// The value that the last entry for `k` sets.
pub open spec fn value_of(lines: Seq<Seq<char>>, k: Seq<char>) -> Option<Seq<char>> {
    let i = last_index_of_key(lines, k);
    if i < 0 {
        None
    } else {
        Some(lines[i].subrange(k.len() + 1 as int, lines[i].len() as int))
    }
}

/// The lines after `k` is set to `v`: its last entry rewritten in place, or a
/// new entry appended.
pub open spec fn put_lines(lines: Seq<Seq<char>>, k: Seq<char>, v: Seq<char>) -> Seq<Seq<char>> {
    let i = last_index_of_key(lines, k);
    if i < 0 {
        lines.push(entry_line(k, v))
    } else {
        lines.update(i, entry_line(k, v))
    }
}

/// The lines without any entry for `k`.
pub open spec fn remove_lines(lines: Seq<Seq<char>>, k: Seq<char>) -> Seq<Seq<char>>
    decreases lines.len(),
{
    if lines.len() == 0 {
        lines
    } else if line_sets(lines.last(), k) {
        remove_lines(lines.drop_last(), k)
    } else {
        remove_lines(lines.drop_last(), k).push(lines.last())
    }
}

proof fn lemma_last_index_bounds(lines: Seq<Seq<char>>, k: Seq<char>)
    ensures
        -1 <= last_index_of_key(lines, k) < lines.len(),
        last_index_of_key(lines, k) >= 0 ==> line_sets(lines[last_index_of_key(lines, k)], k),
    decreases lines.len(),
{
    if lines.len() > 0 && !line_sets(lines.last(), k) {
        lemma_last_index_bounds(lines.drop_last(), k);
    }
}

/// The document as text: each line followed by a newline.
pub open spec fn text_of(lines: Seq<Seq<char>>) -> Seq<char>
    decreases lines.len(),
{
    if lines.len() == 0 {
        Seq::empty()
    } else {
        lines[0] + seq!['\n'] + text_of(lines.subrange(1, lines.len() as int))
    }
}

/// Index of the first newline in `t`, or its length if it has none.
pub open spec fn first_newline(t: Seq<char>) -> int
    decreases t.len(),
{
    if t.len() == 0 || t[0] == '\n' {
        0
    } else {
        1 + first_newline(t.subrange(1, t.len() as int))
    }
}

/// The lines of a text: split at each newline, a final newline ending the
/// last line rather than starting an empty one.
pub open spec fn lines_of(t: Seq<char>) -> Seq<Seq<char>>
    decreases t.len(),
{
    if t.len() == 0 {
        Seq::empty()
    } else {
        let i = first_newline(t);
        if i < 0 || i >= t.len() {
            seq![t]
        } else {
            seq![t.subrange(0, i)] + lines_of(t.subrange(i + 1, t.len() as int))
        }
    }
}

proof fn lemma_first_newline_at(t: Seq<char>, k: int)
    requires
        0 <= k <= t.len(),
        k < t.len() ==> t[k] == '\n',
        forall|j: int| 0 <= j < k ==> t[j] != '\n',
    ensures
        first_newline(t) == k,
    decreases t.len(),
{
    if k > 0 {
        let u = t.subrange(1, t.len() as int);
        assert forall|j: int| 0 <= j < k - 1 implies u[j] != '\n' by {
            assert(u[j] == t[j + 1]);
        }
        if k < t.len() {
            assert(u[k - 1] == t[k]);
        }
        lemma_first_newline_at(u, k - 1);
    }
}

/// Reading back the text of a document gives its lines, where no line holds
/// a newline.
pub proof fn lemma_lines_of_text(lines: Seq<Seq<char>>)
    requires
        forall|i: int| 0 <= i < lines.len() ==> !(#[trigger] lines[i]).contains('\n'),
    ensures
        lines_of(text_of(lines)) == lines,
    decreases lines.len(),
{
    if lines.len() > 0 {
        let l0 = lines[0];
        let rest = lines.subrange(1, lines.len() as int);
        let t = text_of(lines);
        assert forall|i: int| 0 <= i < rest.len() implies !(#[trigger] rest[i]).contains('\n') by {
            assert(rest[i] == lines[i + 1]);
        }
        lemma_lines_of_text(rest);
        assert(t == l0 + seq!['\n'] + text_of(rest));
        assert forall|j: int| 0 <= j < l0.len() implies t[j] != '\n' by {
            assert(t[j] == l0[j]);
            if t[j] == '\n' {
                assert(l0.contains('\n'));
            }
        }
        assert(t[l0.len() as int] == '\n');
        lemma_first_newline_at(t, l0.len() as int);
        assert(t.subrange(0, l0.len() as int) =~= l0);
        assert(t.subrange(l0.len() + 1 as int, t.len() as int) =~= text_of(rest));
        assert(seq![l0] + rest =~= lines);
    }
}

/// An environment file as its sequence of lines.
pub struct EnvFile {
    lines: Vec<String>,
}

impl View for EnvFile {
    type V = Seq<Seq<char>>;

    closed spec fn view(&self) -> Seq<Seq<char>> {
        self.lines@.map_values(|l: String| l@)
    }
}

fn key_is_valid(k: &Vec<char>) -> (b: bool)
    ensures
        b == is_key(k@),
{
    if k.len() == 0 || k[0] == '#' {
        return false;
    }
    let mut i: usize = 0;
    while i < k.len()
        invariant
            forall|j: int| 0 <= j < i ==> k@[j] != '=',
        decreases k.len() - i,
    {
        if k[i] == '=' {
            assert(k@[i as int] == '=');
            return false;
        }
        i = i + 1;
    }
    true
}

fn line_sets_exec(line: &str, k: &Vec<char>, valid: bool) -> (b: bool)
    requires
        valid == is_key(k@),
    ensures
        b == line_sets(line@, k@),
{
    if !valid {
        return false;
    }
    let n = line.unicode_len();
    if n <= k.len() {
        return false;
    }
    let mut i: usize = 0;
    while i < k.len()
        invariant
            n == line@.len(),
            k@.len() < n,
            forall|j: int| 0 <= j < i ==> line@[j] == k@[j],
        decreases k.len() - i,
    {
        if line.get_char(i) != k[i] {
            assert(line@.subrange(0, k@.len() as int)[i as int] != k@[i as int]);
            return false;
        }
        i = i + 1;
    }
    assert(line@.subrange(0, k@.len() as int) =~= k@);
    line.get_char(k.len()) == '='
}

impl EnvFile {
    /// An empty document.
    pub fn new() -> (r: EnvFile)
        ensures
            r@ == Seq::<Seq<char>>::empty(),
    {
        let r = EnvFile { lines: Vec::new() };
        assert(r@ =~= Seq::<Seq<char>>::empty());
        r
    }

    /// A document made of the given lines.
    pub fn from_lines(lines: Vec<String>) -> (r: EnvFile)
        ensures
            r@ == lines@.map_values(|l: String| l@),
    {
        EnvFile { lines }
    }

    /// The lines of the document, in order.
    pub fn lines(&self) -> (r: Vec<String>)
        ensures
            r@.map_values(|l: String| l@) == self@,
    {
        let mut r: Vec<String> = Vec::new();
        let mut i: usize = 0;
        while i < self.lines.len()
            invariant
                i <= self.lines@.len(),
                r@.len() == i,
                r@.map_values(|l: String| l@) =~= self@.subrange(0, i as int),
            decreases self.lines.len() - i,
        {
            let l = self.lines[i].clone();
            assert(l@ == self@[i as int]);
            r.push(l);
            i = i + 1;
            assert(r@.map_values(|l: String| l@) =~= self@.subrange(0, i as int));
        }
        assert(self@.subrange(0, i as int) =~= self@);
        r
    }

    /// The document read from its text.
    pub fn from_text(text: &str) -> (r: EnvFile)
        ensures
            r@ == lines_of(text@),
    {
        let t = chars_of(text);
        let n = t.len();
        let mut lines: Vec<String> = Vec::new();
        let mut start: usize = 0;
        let mut i: usize = 0;
        assert(text@.subrange(0, n as int) =~= text@);
        assert(lines@.map_values(|l: String| l@) + lines_of(text@) =~= lines_of(text@));
        while i < n
            invariant
                n == text@.len(),
                t@ == text@,
                start <= i <= n,
                forall|j: int| start <= j < i ==> text@[j] != '\n',
                lines@.map_values(|l: String| l@) + lines_of(text@.subrange(start as int, n as int))
                    == lines_of(text@),
            decreases n - i,
        {
            if t[i] == '\n' {
                let ghost u = text@.subrange(start as int, n as int);
                proof {
                    assert forall|j: int| 0 <= j < i - start implies u[j] != '\n' by {
                        assert(u[j] == text@[start + j]);
                    }
                    assert(u[i - start] == text@[i as int]);
                    lemma_first_newline_at(u, i - start);
                    assert(u.subrange(0, i - start) =~= text@.subrange(start as int, i as int));
                    assert(u.subrange(i - start + 1, u.len() as int) =~= text@.subrange(
                        i + 1,
                        n as int,
                    ));
                }
                let ghost before = lines@.map_values(|l: String| l@);
                lines.push(String::from_str(text.substring_char(start, i)));
                assert(lines@.map_values(|l: String| l@) =~= before.push(
                    text@.subrange(start as int, i as int),
                ));
                assert(before + lines_of(u) =~= lines@.map_values(|l: String| l@) + lines_of(
                    text@.subrange(i + 1, n as int),
                ));
                start = i + 1;
            }
            i = i + 1;
        }
        if start < n {
            let ghost u = text@.subrange(start as int, n as int);
            proof {
                assert forall|j: int| 0 <= j < u.len() implies u[j] != '\n' by {
                    assert(u[j] == text@[start + j]);
                }
                lemma_first_newline_at(u, u.len() as int);
            }
            let ghost before = lines@.map_values(|l: String| l@);
            lines.push(String::from_str(text.substring_char(start, n)));
            assert(lines@.map_values(|l: String| l@) =~= before + lines_of(u));
        } else {
            assert(lines@.map_values(|l: String| l@) =~= lines@.map_values(|l: String| l@) + lines_of(
                text@.subrange(start as int, n as int),
            ));
        }
        EnvFile { lines }
    }

    /// The document as text: each line followed by a newline.
    pub fn to_text(&self) -> (r: String)
        ensures
            r@ == text_of(self@),
    {
        let mut out = String::new();
        let mut i: usize = 0;
        proof {
            assert(self@.subrange(0, self@.len() as int) =~= self@);
        }
        assert(out@ + text_of(self@.subrange(0, self@.len() as int)) =~= text_of(self@));
        while i < self.lines.len()
            invariant
                i <= self@.len(),
                self@.len() == self.lines@.len(),
                out@ + text_of(self@.subrange(i as int, self@.len() as int)) == text_of(self@),
            decreases self.lines.len() - i,
        {
            let ghost rest = self@.subrange(i as int, self@.len() as int);
            let ghost before = out@;
            assert(rest.subrange(1, rest.len() as int) =~= self@.subrange(
                i + 1,
                self@.len() as int,
            ));
            assert(rest[0] == self.lines@[i as int]@);
            out.append(self.lines[i].as_str());
            out.append("\n");
            proof {
                reveal_strlit("\n");
                assert("\n"@ =~= seq!['\n']);
            }
            i = i + 1;
            assert(before + text_of(rest) =~= out@ + text_of(
                self@.subrange(i as int, self@.len() as int),
            ));
        }
        assert(out@ + text_of(self@.subrange(i as int, self@.len() as int)) =~= out@);
        out
    }

    fn last_index(&self, k: &Vec<char>) -> (r: Option<usize>)
        ensures
            match r {
                Some(i) => i as int == last_index_of_key(self@, k@),
                None => last_index_of_key(self@, k@) == -1,
            },
    {
        let valid = key_is_valid(k);
        let mut found: Option<usize> = None;
        let mut i: usize = 0;
        while i < self.lines.len()
            invariant
                valid == is_key(k@),
                i <= self.lines@.len(),
                match found {
                    Some(j) => j as int == last_index_of_key(self@.subrange(0, i as int), k@),
                    None => last_index_of_key(self@.subrange(0, i as int), k@) == -1,
                },
            decreases self.lines.len() - i,
        {
            let hit = line_sets_exec(self.lines[i].as_str(), k, valid);
            proof {
                let pre = self@.subrange(0, i + 1);
                assert(pre.drop_last() =~= self@.subrange(0, i as int));
                assert(pre.last() == self@[i as int]);
            }
            if hit {
                found = Some(i);
            }
            i = i + 1;
        }
        assert(self@.subrange(0, i as int) =~= self@);
        found
    }

    /// The value of the last entry for `key`, if there is one.
    pub fn get(&self, key: &str) -> (r: Option<String>)
        ensures
            match r {
                Some(v) => value_of(self@, key@) == Some(v@),
                None => value_of(self@, key@) is None,
            },
    {
        let k = chars_of(key);
        match self.last_index(&k) {
            None => None,
            Some(i) => {
                proof {
                    lemma_last_index_bounds(self@, key@);
                }
                let line = self.lines[i].as_str();
                let n = line.unicode_len();
                Some(String::from_str(line.substring_char(k.len() + 1, n)))
            },
        }
    }

    /// Sets `key` to `value`: its last entry is rewritten where it stands, or
    /// a new entry is appended.
    pub fn put(&mut self, key: &str, value: &str)
        ensures
            final(self)@ == put_lines(old(self)@, key@, value@),
    {
        let k = chars_of(key);
        let mut line = String::from_str(key);
        line.append("=");
        line.append(value);
        proof {
            reveal_strlit("=");
            assert(line@ =~= entry_line(key@, value@));
            lemma_last_index_bounds(old(self)@, key@);
        }
        match self.last_index(&k) {
            None => {
                self.lines.push(line);
                assert(self@ =~= put_lines(old(self)@, key@, value@));
            },
            Some(i) => {
                self.lines.set(i, line);
                assert(self@ =~= put_lines(old(self)@, key@, value@));
            },
        }
    }

    /// Drops every entry for `key`; nothing changes if there is none.
    pub fn remove(&mut self, key: &str)
        ensures
            final(self)@ == remove_lines(old(self)@, key@),
    {
        let k = chars_of(key);
        let valid = key_is_valid(&k);
        let mut kept: Vec<String> = Vec::new();
        let mut i: usize = 0;
        let ghost all = self@;
        while i < self.lines.len()
            invariant
                valid == is_key(key@),
                k@ == key@,
                all == self@,
                i <= self.lines@.len(),
                kept@.map_values(|l: String| l@) =~= remove_lines(all.subrange(0, i as int), key@),
            decreases self.lines.len() - i,
        {
            let hit = line_sets_exec(self.lines[i].as_str(), &k, valid);
            proof {
                let pre = all.subrange(0, i + 1);
                assert(pre.drop_last() =~= all.subrange(0, i as int));
                assert(pre.last() == all[i as int]);
            }
            if !hit {
                kept.push(self.lines[i].clone());
            }
            i = i + 1;
            assert(kept@.map_values(|l: String| l@) =~= remove_lines(all.subrange(0, i as int), key@));
        }
        assert(all.subrange(0, i as int) =~= all);
        self.lines = kept;
    }
}


/// The last index of a key is characterized by the line there setting it
/// and no later line setting it.
proof fn lemma_last_index_unique(lines: Seq<Seq<char>>, k: Seq<char>, i: int)
    requires
        i == -1 || (0 <= i < lines.len() && line_sets(lines[i], k)),
        forall|j: int| i < j < lines.len() ==> !line_sets(#[trigger] lines[j], k),
    ensures
        last_index_of_key(lines, k) == i,
    decreases lines.len(),
{
    if lines.len() > 0 && i != lines.len() - 1 {
        assert(!line_sets(lines[lines.len() - 1], k));
        let d = lines.drop_last();
        assert forall|j: int| i < j < d.len() implies !line_sets(#[trigger] d[j], k) by {
            assert(d[j] == lines[j]);
        }
        lemma_last_index_unique(d, k, i);
    }
}

proof fn lemma_last_index_after(lines: Seq<Seq<char>>, k: Seq<char>)
    ensures
        forall|j: int|
            last_index_of_key(lines, k) < j < lines.len() ==> !line_sets(#[trigger] lines[j], k),
    decreases lines.len(),
{
    if lines.len() > 0 && !line_sets(lines.last(), k) {
        let d = lines.drop_last();
        lemma_last_index_after(d, k);
        lemma_last_index_bounds(lines, k);
        assert forall|j: int| last_index_of_key(lines, k) < j < lines.len() implies !line_sets(
            #[trigger] lines[j],
            k,
        ) by {
            if j < d.len() {
                assert(d[j] == lines[j]);
            }
        }
    }
}

/// A line sets at most one key.
proof fn lemma_line_sets_one_key(line: Seq<char>, k1: Seq<char>, k2: Seq<char>)
    requires
        line_sets(line, k1),
        line_sets(line, k2),
    ensures
        k1 == k2,
{
    if k1.len() < k2.len() {
        assert(k2[k1.len() as int] == line.subrange(0, k2.len() as int)[k1.len() as int]);
        assert(k2.contains('='));
    } else if k2.len() < k1.len() {
        assert(k1[k2.len() as int] == line.subrange(0, k1.len() as int)[k2.len() as int]);
        assert(k1.contains('='));
    } else {
        assert(k1 =~= k2);
    }
}

proof fn lemma_entry_line_sets(k: Seq<char>, v: Seq<char>)
    requires
        is_key(k),
    ensures
        line_sets(entry_line(k, v), k),
        entry_line(k, v).subrange(k.len() + 1 as int, entry_line(k, v).len() as int) == v,
{
    let e = entry_line(k, v);
    assert(e.subrange(0, k.len() as int) =~= k);
    assert(e.subrange(k.len() + 1 as int, e.len() as int) =~= v);
}

/// After `put`, `get` of the same key gives the value that was put.
pub proof fn lemma_get_after_put(lines: Seq<Seq<char>>, k: Seq<char>, v: Seq<char>)
    requires
        is_key(k),
    ensures
        value_of(put_lines(lines, k, v), k) == Some(v),
{
    let i = last_index_of_key(lines, k);
    let p = put_lines(lines, k, v);
    lemma_last_index_bounds(lines, k);
    lemma_last_index_after(lines, k);
    lemma_entry_line_sets(k, v);
    if i < 0 {
        lemma_last_index_unique(p, k, lines.len() as int);
    } else {
        assert forall|j: int| i < j < p.len() implies !line_sets(#[trigger] p[j], k) by {
            assert(p[j] == lines[j]);
        }
        lemma_last_index_unique(p, k, i);
    }
}

/// Putting one key leaves what `get` gives for every other key.
pub proof fn lemma_put_keeps_other(lines: Seq<Seq<char>>, k: Seq<char>, v: Seq<char>, other: Seq<char>)
    requires
        is_key(k),
        other != k,
    ensures
        value_of(put_lines(lines, k, v), other) == value_of(lines, other),
{
    let i = last_index_of_key(lines, k);
    let o = last_index_of_key(lines, other);
    let p = put_lines(lines, k, v);
    lemma_last_index_bounds(lines, k);
    lemma_last_index_bounds(lines, other);
    lemma_last_index_after(lines, other);
    lemma_entry_line_sets(k, v);
    if line_sets(entry_line(k, v), other) {
        lemma_line_sets_one_key(entry_line(k, v), k, other);
    }
    if o >= 0 && o == i {
        lemma_line_sets_one_key(lines[i], k, other);
    }
    assert forall|j: int| o < j < p.len() implies !line_sets(#[trigger] p[j], other) by {
        if j < lines.len() && j != i {
            assert(p[j] == lines[j]);
        }
    }
    if o >= 0 {
        assert(p[o] == lines[o]);
    }
    lemma_last_index_unique(p, other, o);
}

/// What `get` gives, read off the last line.
proof fn lemma_value_of_step(lines: Seq<Seq<char>>, k: Seq<char>)
    requires
        lines.len() > 0,
    ensures
        value_of(lines, k) == if line_sets(lines.last(), k) {
            Some(lines.last().subrange(k.len() + 1 as int, lines.last().len() as int))
        } else {
            value_of(lines.drop_last(), k)
        },
{
    lemma_last_index_bounds(lines.drop_last(), k);
}

/// After `remove`, `get` finds nothing for the removed key and the same as
/// before for every other key.
pub proof fn lemma_get_after_remove(lines: Seq<Seq<char>>, k: Seq<char>, other: Seq<char>)
    ensures
        value_of(remove_lines(lines, k), k) is None,
        other != k ==> value_of(remove_lines(lines, k), other) == value_of(lines, other),
    decreases lines.len(),
{
    if lines.len() > 0 {
        let d = lines.drop_last();
        let r = remove_lines(d, k);
        lemma_get_after_remove(d, k, other);
        lemma_value_of_step(lines, other);
        if line_sets(lines.last(), k) {
            if other != k && line_sets(lines.last(), other) {
                lemma_line_sets_one_key(lines.last(), k, other);
            }
        } else {
            lemma_value_of_step(r.push(lines.last()), k);
            lemma_value_of_step(r.push(lines.last()), other);
            assert(r.push(lines.last()).drop_last() =~= r);
        }
    }
}

/// Removing a key from two documents put together removes it from each.
pub proof fn lemma_remove_concat(a: Seq<Seq<char>>, b: Seq<Seq<char>>, k: Seq<char>)
    ensures
        remove_lines(a + b, k) == remove_lines(a, k) + remove_lines(b, k),
    decreases b.len(),
{
    if b.len() == 0 {
        assert(a + b =~= a);
        assert(remove_lines(a, k) + remove_lines(b, k) =~= remove_lines(a, k));
    } else {
        assert((a + b).drop_last() =~= a + b.drop_last());
        assert((a + b).last() == b.last());
        lemma_remove_concat(a, b.drop_last(), k);
        if !line_sets(b.last(), k) {
            assert(remove_lines(a, k) + remove_lines(b.drop_last(), k).push(b.last()) =~= (
            remove_lines(a, k) + remove_lines(b.drop_last(), k)).push(b.last()));
        }
    }
}

/// Removing a key that no line sets changes nothing.
pub proof fn lemma_remove_absent(a: Seq<Seq<char>>, k: Seq<char>)
    requires
        forall|j: int| 0 <= j < a.len() ==> !line_sets(#[trigger] a[j], k),
    ensures
        remove_lines(a, k) == a,
    decreases a.len(),
{
    if a.len() > 0 {
        let d = a.drop_last();
        assert forall|j: int| 0 <= j < d.len() implies !line_sets(#[trigger] d[j], k) by {
            assert(d[j] == a[j]);
        }
        lemma_remove_absent(d, k);
        assert(!line_sets(a[a.len() - 1], k));
        assert(d.push(a.last()) =~= a);
    }
}

/// A line never sets two keys, so a line that sets `k1` does not set any
/// other key.
pub proof fn lemma_sets_only_its_key(line: Seq<char>, k1: Seq<char>, k2: Seq<char>)
    requires
        line_sets(line, k1),
        k1 != k2,
    ensures
        !line_sets(line, k2),
{
    if line_sets(line, k2) {
        lemma_line_sets_one_key(line, k1, k2);
    }
}

/// The entry line for a key sets that key and holds the value.
pub proof fn lemma_entry_line(k: Seq<char>, v: Seq<char>)
    requires
        is_key(k),
    ensures
        line_sets(entry_line(k, v), k),
        entry_line(k, v).subrange(k.len() + 1 as int, entry_line(k, v).len() as int) == v,
{
    lemma_entry_line_sets(k, v);
}

/// A line that sets `k` is the entry line for `k` and the value it holds.
pub proof fn lemma_line_is_entry(line: Seq<char>, k: Seq<char>)
    requires
        line_sets(line, k),
    ensures
        line == entry_line(k, line.subrange(k.len() + 1 as int, line.len() as int)),
{
    assert(line =~= entry_line(k, line.subrange(k.len() + 1 as int, line.len() as int)));
}

/// The characterization of the last index, for use outside this module.
pub proof fn lemma_last_index_facts(lines: Seq<Seq<char>>, k: Seq<char>)
    ensures
        -1 <= last_index_of_key(lines, k) < lines.len(),
        last_index_of_key(lines, k) >= 0 ==> line_sets(lines[last_index_of_key(lines, k)], k),
        forall|j: int|
            last_index_of_key(lines, k) < j < lines.len() ==> !line_sets(#[trigger] lines[j], k),
{
    lemma_last_index_bounds(lines, k);
    lemma_last_index_after(lines, k);
}

/// A line that sets `k`, with no later line setting it, is the last index.
pub proof fn lemma_last_index_is(lines: Seq<Seq<char>>, k: Seq<char>, i: int)
    requires
        i == -1 || (0 <= i < lines.len() && line_sets(lines[i], k)),
        forall|j: int| i < j < lines.len() ==> !line_sets(#[trigger] lines[j], k),
    ensures
        last_index_of_key(lines, k) == i,
{
    lemma_last_index_unique(lines, k, i);
}
} // verus!
