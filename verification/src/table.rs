//! The table kept beside the projects: one line `name: path` per project,
//! naming the folder its items were read from.
use vstd::prelude::*;

use crate::project::{contains_name, string_views};

verus! {

/// A table entry: a project's name and its folder.
pub type Entry = (String, String);

/// The characters of each entry.
pub open spec fn entry_views(es: Seq<Entry>) -> Seq<(Seq<char>, Seq<char>)> {
    es.map_values(|e: Entry| (e.0@, e.1@))
}

/// The position of the first `c` in `t` at or after `i`; `t.len()` when there is none.
pub open spec fn find_char(t: Seq<char>, c: char, i: int) -> int
    decreases t.len() - i,
{
    if i >= t.len() {
        t.len() as int
    } else if t[i] == c {
        i
    } else {
        find_char(t, c, i + 1)
    }
}

/// The position of the first `": "` in `l` at or after `i`; `l.len()` when there is none.
pub open spec fn find_sep(l: Seq<char>, i: int) -> int
    decreases l.len() - i,
{
    if i + 1 >= l.len() {
        l.len() as int
    } else if l[i] == ':' && l[i + 1] == ' ' {
        i
    } else {
        find_sep(l, i + 1)
    }
}

/// A line without the `'\r'` of a `"\r\n"` ending.
pub open spec fn strip_cr(l: Seq<char>) -> Seq<char> {
    if l.len() > 0 && l.last() == '\r' {
        l.drop_last()
    } else {
        l
    }
}

/// The name and path a line holds: the text before its first `": "`, and the
/// text after it up to the next `": "` or the end of the line. `None` for a
/// line without `": "`.
pub open spec fn entry_of(l: Seq<char>) -> Option<(Seq<char>, Seq<char>)> {
    let p = find_sep(l, 0);
    if p >= l.len() {
        None
    } else {
        let rest = l.skip(p + 2);
        Some((l.take(p), rest.take(find_sep(rest, 0))))
    }
}

pub proof fn lemma_find_char_range(t: Seq<char>, c: char, i: int)
    requires
        0 <= i,
    ensures
        i <= find_char(t, c, i) || (i > t.len() && find_char(t, c, i) == t.len()),
        find_char(t, c, i) <= t.len() || i > t.len(),
        find_char(t, c, i) < t.len() ==> t[find_char(t, c, i)] == c,
    decreases t.len() - i,
{
    if i < t.len() && t[i] != c {
        lemma_find_char_range(t, c, i + 1);
    }
}

pub proof fn lemma_find_sep_range(l: Seq<char>, i: int)
    requires
        0 <= i <= l.len(),
    ensures
        i <= find_sep(l, i) <= l.len(),
        find_sep(l, i) < l.len() ==> find_sep(l, i) + 1 < l.len() && l[find_sep(l, i)] == ':'
            && l[find_sep(l, i) + 1] == ' ',
    decreases l.len() - i,
{
    if i + 1 < l.len() && !(l[i] == ':' && l[i + 1] == ' ') {
        lemma_find_sep_range(l, i + 1);
    }
}

/// The entries of a table's text, line by line, where lines end at `'\n'`
/// (a `'\r'` before it dropped) and the last line may lack one; `None` when
/// some line has no `": "`.
pub open spec fn parsed(t: Seq<char>) -> Option<Seq<(Seq<char>, Seq<char>)>>
    decreases t.len(),
{
    if t.len() == 0 {
        Some(seq![])
    } else {
        let k = find_char(t, '\n', 0);
        if k >= t.len() {
            match entry_of(t) {
                Some(e) => Some(seq![e]),
                None => None,
            }
        } else {
            match entry_of(strip_cr(t.take(k))) {
                Some(e) => {
                    proof {
                        lemma_find_char_range(t, '\n', 0);
                    }
                    match parsed(t.skip(k + 1)) {
                        Some(rest) => Some(seq![e] + rest),
                        None => None,
                    }
                },
                None => None,
            }
        }
    }
}

/// The line written for an entry.
pub open spec fn line_of(e: (Seq<char>, Seq<char>)) -> Seq<char> {
    e.0 + seq![':', ' '] + e.1 + seq!['\n']
}

/// The text written for a list of entries.
pub open spec fn formatted(es: Seq<(Seq<char>, Seq<char>)>) -> Seq<char>
    decreases es.len(),
{
    if es.len() == 0 {
        seq![]
    } else {
        formatted(es.drop_last()) + line_of(es.last())
    }
}

/// `o` with `acc` put in front of the entries it holds.
pub open spec fn prefixed(
    acc: Seq<(Seq<char>, Seq<char>)>,
    o: Option<Seq<(Seq<char>, Seq<char>)>>,
) -> Option<Seq<(Seq<char>, Seq<char>)>> {
    match o {
        Some(r) => Some(acc + r),
        None => None,
    }
}

proof fn lemma_find_char_skip(t: Seq<char>, c: char, s: int, i: int)
    requires
        0 <= s <= t.len(),
        0 <= i,
    ensures
        find_char(t.skip(s), c, i) == find_char(t, c, s + i) - s,
    decreases t.len() - s - i,
{
    if i < t.len() - s && t[s + i] != c {
        lemma_find_char_skip(t, c, s, i + 1);
    }
}

/// The characters of `text`.
fn chars_of(text: &str) -> (cs: Vec<char>)
    ensures
        cs@ == text@,
{
    let n = text.unicode_len();
    let mut cs: Vec<char> = Vec::new();
    let mut i: usize = 0;
    while i < n
        invariant
            n == text@.len(),
            i <= n,
            cs@ == text@.take(i as int),
        decreases n - i,
    {
        cs.push(text.get_char(i));
        i = i + 1;
        assert(cs@ =~= text@.take(i as int));
    }
    assert(cs@ =~= text@);
    cs
}

/// The position of the first `c` in `t` at or after `lo`, or `t.len()`.
fn find_char_from(t: &Vec<char>, c: char, lo: usize) -> (k: usize)
    requires
        lo <= t@.len(),
    ensures
        k == find_char(t@, c, lo as int),
{
    let mut j = lo;
    while j < t.len()
        invariant
            lo <= j <= t@.len(),
            find_char(t@, c, lo as int) == find_char(t@, c, j as int),
        decreases t@.len() - j,
    {
        if t[j] == c {
            return j;
        }
        j = j + 1;
    }
    j
}

/// The position in `t` of the first `": "` of `t[lo..hi]`, or `hi`.
fn find_sep_in(t: &Vec<char>, lo: usize, hi: usize) -> (p: usize)
    requires
        lo <= hi <= t@.len(),
    ensures
        p == lo + find_sep(t@.subrange(lo as int, hi as int), 0),
{
    let ghost l = t@.subrange(lo as int, hi as int);
    let mut j = lo;
    while j < hi
        invariant
            lo <= j <= hi,
            hi <= t@.len(),
            l == t@.subrange(lo as int, hi as int),
            find_sep(l, 0) == find_sep(l, j - lo),
        decreases hi - j,
    {
        if j + 1 >= hi {
            return hi;
        }
        if t[j] == ':' && t[j + 1] == ' ' {
            return j;
        }
        j = j + 1;
    }
    hi
}

/// The entry on the line `t[lo..hi]` of `text`, as `entry_of` gives it.
fn entry_in(text: &str, t: &Vec<char>, lo: usize, hi: usize) -> (e: Option<Entry>)
    requires
        t@ == text@,
        lo <= hi <= t@.len(),
    ensures
        match e {
            Some(e) => entry_of(t@.subrange(lo as int, hi as int)) == Some((e.0@, e.1@)),
            None => entry_of(t@.subrange(lo as int, hi as int)) is None,
        },
{
    let ghost l = t@.subrange(lo as int, hi as int);
    let p = find_sep_in(t, lo, hi);
    proof {
        lemma_find_sep_range(l, 0);
    }
    if p >= hi {
        return None;
    }
    let q = find_sep_in(t, p + 2, hi);
    proof {
        lemma_find_sep_range(t@.subrange(p + 2, hi as int), 0);
        assert(t@.subrange(p + 2, hi as int) =~= l.skip(p - lo + 2));
    }
    let name = String::from_str(text.substring_char(lo, p));
    let path = String::from_str(text.substring_char(p + 2, q));
    proof {
        assert(name@ =~= l.take(p - lo));
        assert(path@ =~= l.skip(p - lo + 2).take(q - (p + 2)));
    }
    Some((name, path))
}

/// Reads a table's text: its entries, line by line; `None` when some line
/// has no `": "`.
pub fn parse_table(text: &str) -> (entries: Option<Vec<Entry>>)
    ensures
        match entries {
            Some(es) => parsed(text@) == Some(entry_views(es@)),
            None => parsed(text@) is None,
        },
{
    let t = chars_of(text);
    let n = t.len();
    let mut out: Vec<Entry> = Vec::new();
    let mut start: usize = 0;
    assert(text@.skip(0) =~= text@);
    while start < n
        invariant
            n == t@.len(),
            t@ == text@,
            start <= n,
            parsed(text@) == prefixed(entry_views(out@), parsed(text@.skip(start as int))),
        decreases n - start,
    {
        let ghost s = text@.skip(start as int);
        let ghost acc = entry_views(out@);
        let k = find_char_from(&t, '\n', start);
        proof {
            lemma_find_char_skip(text@, '\n', start as int, 0);
            lemma_find_char_range(text@, '\n', start as int);
        }
        let end = if k >= n {
            n
        } else if k > start && t[k - 1] == '\r' {
            k - 1
        } else {
            k
        };
        proof {
            if k < n {
                assert(s.take(k - start) =~= t@.subrange(start as int, k as int));
                assert(strip_cr(s.take(k - start)) =~= t@.subrange(start as int, end as int));
                assert(s.skip(k - start + 1) =~= text@.skip(k + 1));
            } else {
                assert(s =~= t@.subrange(start as int, n as int));
            }
        }
        let e = entry_in(text, &t, start, end);
        match e {
            None => {
                return None;
            },
            Some(e) => {
                out.push(e);
                proof {
                    assert(entry_views(out@) =~= acc + seq![entry_views(out@).last()]);
                    if k < n {
                        match parsed(text@.skip(k + 1)) {
                            Some(r) => {
                                assert(acc + (seq![entry_views(out@).last()] + r) =~= entry_views(out@) + r);
                            },
                            None => {},
                        }
                    } else {
                        assert(text@.skip(n as int) =~= Seq::<char>::empty());
                        assert(entry_views(out@) + Seq::<(Seq<char>, Seq<char>)>::empty() =~= entry_views(out@));
                    }
                }
                if k >= n {
                    start = n;
                } else {
                    start = k + 1;
                }
            },
        }
    }
    proof {
        assert(text@.skip(start as int) =~= Seq::<char>::empty());
        assert(entry_views(out@) + Seq::<(Seq<char>, Seq<char>)>::empty() =~= entry_views(out@));
    }
    Some(out)
}

/// Writes a table: one line `name: path` per entry.
pub fn format_table(entries: &Vec<Entry>) -> (text: String)
    ensures
        text@ == formatted(entry_views(entries@)),
{
    let mut out = String::new();
    let mut i: usize = 0;
    proof {
        reveal_strlit(": ");
        reveal_strlit("\n");
        assert(entry_views(entries@).take(0) =~= Seq::<(Seq<char>, Seq<char>)>::empty());
    }
    while i < entries.len()
        invariant
            i <= entries@.len(),
            out@ == formatted(entry_views(entries@).take(i as int)),
        decreases entries@.len() - i,
    {
        let ghost before = out@;
        out.append(entries[i].0.as_str());
        out.append(": ");
        out.append(entries[i].1.as_str());
        out.append("\n");
        proof {
            reveal_strlit(": ");
            reveal_strlit("\n");
            let vs = entry_views(entries@);
            assert(vs[i as int] == (entries@[i as int].0@, entries@[i as int].1@));
            assert(vs.take(i + 1).drop_last() =~= vs.take(i as int));
            assert(vs.take(i + 1).last() == vs[i as int]);
            assert(out@ =~= before + line_of(vs[i as int]));
        }
        i = i + 1;
    }
    proof {
        assert(entry_views(entries@).take(i as int) =~= entry_views(entries@));
    }
    out
}

/// A `": "` starts at position `j` of `s`.
pub open spec fn sep_at(s: Seq<char>, j: int) -> bool {
    0 <= j && j + 1 < s.len() && s[j] == ':' && s[j + 1] == ' '
}

/// A field that a table line holds as it is: no line break and no `": "` in it.
pub open spec fn plain_field(s: Seq<char>) -> bool {
    &&& forall|j: int| 0 <= j < s.len() ==> s[j] != '\n'
    &&& forall|j: int| !#[trigger] sep_at(s, j)
}

/// The first `c` from `i` on is at `q` when no earlier position holds one.
proof fn lemma_find_char_first(t: Seq<char>, c: char, i: int, q: int)
    requires
        0 <= i <= q <= t.len(),
        forall|j: int| i <= j < q ==> t[j] != c,
        q < t.len() ==> t[q] == c,
    ensures
        find_char(t, c, i) == q,
    decreases q - i,
{
    if i < q {
        lemma_find_char_first(t, c, i + 1, q);
    }
}

/// The first `": "` from `i` on is at `q` when none starts earlier.
proof fn lemma_find_sep_first(l: Seq<char>, i: int, q: int)
    requires
        0 <= i <= q <= l.len(),
        forall|j: int| i <= j < q ==> !#[trigger] sep_at(l, j),
        q < l.len() ==> sep_at(l, q),
    ensures
        find_sep(l, i) == q,
    decreases q - i,
{
    if i < q && i + 1 < l.len() {
        assert(!sep_at(l, i));
        lemma_find_sep_first(l, i + 1, q);
    }
}

/// The text of a list of entries is the first entry's line followed by the text of the rest.
proof fn lemma_formatted_front(es: Seq<(Seq<char>, Seq<char>)>)
    requires
        es.len() > 0,
    ensures
        formatted(es) == line_of(es[0]) + formatted(es.drop_first()),
    decreases es.len(),
{
    if es.len() == 1 {
        assert(es.drop_last() =~= Seq::<(Seq<char>, Seq<char>)>::empty());
        assert(es.drop_first() =~= Seq::<(Seq<char>, Seq<char>)>::empty());
        assert(formatted(es) =~= line_of(es[0]) + formatted(es.drop_first()));
    } else {
        lemma_formatted_front(es.drop_last());
        assert(es.drop_last().drop_first() =~= es.drop_first().drop_last());
        assert(es.drop_first().last() == es.last());
        assert(es.drop_last()[0] == es[0]);
        assert(formatted(es) =~= line_of(es[0]) + formatted(es.drop_first()));
    }
}

/// Reading back a written table gives its entries back, when no name or path
/// holds a line break or `": "`, and no path ends with `'\r'`.
pub proof fn law_table_round_trip(es: Seq<(Seq<char>, Seq<char>)>)
    requires
        forall|i: int| 0 <= i < es.len() ==> plain_field(#[trigger] es[i].0) && plain_field(es[i].1)
            && (es[i].1.len() == 0 || es[i].1.last() != '\r'),
    ensures
        parsed(formatted(es)) == Some(es),
    decreases es.len(),
{
    if es.len() == 0 {
        assert(parsed(formatted(es)) == Some(Seq::<(Seq<char>, Seq<char>)>::empty()));
        assert(es =~= Seq::<(Seq<char>, Seq<char>)>::empty());
    } else {
        let e = es[0];
        let name = e.0;
        let path = e.1;
        let rest = es.drop_first();
        assert forall|i: int| 0 <= i < rest.len() implies plain_field(#[trigger] rest[i].0) && plain_field(rest[i].1)
            && (rest[i].1.len() == 0 || rest[i].1.last() != '\r') by {
            assert(rest[i] == es[i + 1]);
        }
        law_table_round_trip(rest);
        lemma_formatted_front(es);
        let t = formatted(es);
        let l = line_of(e);
        let body = name + seq![':', ' '] + path;
        let q = body.len() as int;
        assert(l =~= body + seq!['\n']);
        assert(t =~= l + formatted(rest));
        assert(plain_field(name) && plain_field(path));
        assert forall|j: int| 0 <= j < q implies t[j] != '\n' by {
            assert(t[j] == body[j]);
            if j < name.len() {
                assert(body[j] == name[j]);
            } else if j >= name.len() + 2 {
                assert(body[j] == path[j - name.len() - 2]);
            }
        }
        assert(t[q] == '\n');
        lemma_find_char_first(t, '\n', 0, q);
        assert(t.take(q) =~= body);
        assert(strip_cr(body) == body) by {
            if path.len() > 0 {
                assert(body.last() == path.last());
            } else {
                assert(body.last() == ' ');
            }
        }
        assert forall|j: int| 0 <= j < name.len() implies !#[trigger] sep_at(body, j) by {
            if j + 1 < name.len() {
                assert(body[j] == name[j]);
                assert(body[j + 1] == name[j + 1]);
                assert(!sep_at(name, j));
            } else {
                assert(body[j + 1] == ':');
            }
        }
        lemma_find_sep_first(body, 0, name.len() as int);
        assert(body.skip(name.len() as int + 2) =~= path);

        lemma_find_sep_first(path, 0, path.len() as int);
        assert(body.take(name.len() as int) =~= name);
        assert(path.take(path.len() as int) =~= path);
        assert(entry_of(body) == Some((name, path)));
        assert(t.skip(q + 1) =~= formatted(rest));
        assert(seq![e] + rest =~= es);
    }
}

/// Whether `es` has an entry called `name`.
pub open spec fn has_entry(es: Seq<(Seq<char>, Seq<char>)>, name: Seq<char>) -> bool {
    exists|i: int| 0 <= i < es.len() && (#[trigger] es[i]).0 == name
}

/// The path of the last entry called `name`: the one a map filled line by line keeps.
pub open spec fn last_path(es: Seq<(Seq<char>, Seq<char>)>, name: Seq<char>) -> Seq<char>
    decreases es.len(),
{
    if es.len() == 0 {
        seq![]
    } else if es.last().0 == name {
        es.last().1
    } else {
        last_path(es.drop_last(), name)
    }
}

/// `kept` is the table `es`, read into a map (a later entry of a name replacing
/// an earlier one), with only the names of `projects` left: each name once.
pub open spec fn kept_table(
    es: Seq<(Seq<char>, Seq<char>)>,
    projects: Seq<Seq<char>>,
    kept: Seq<(Seq<char>, Seq<char>)>,
) -> bool {
    &&& forall|i: int, j: int| 0 <= i < j < kept.len() ==> (#[trigger] kept[i]).0 != (#[trigger] kept[j]).0
    &&& forall|i: int|
        0 <= i < kept.len() ==> projects.contains((#[trigger] kept[i]).0) && has_entry(es, kept[i].0)
            && kept[i].1 == last_path(es, kept[i].0)
    &&& forall|n: Seq<char>|
        projects.contains(n) && has_entry(es, n) ==> exists|i: int|
            0 <= i < kept.len() && (#[trigger] kept[i]).0 == n
}

/// Whether a project called `name` has no entry in `es`.
pub open spec fn lacks_entry(es: Seq<(Seq<char>, Seq<char>)>, name: String) -> bool {
    !has_entry(es, name@)
}

/// The path of the last entry of `es` called `name`, if there is one.
fn last_entry_for(es: &Vec<Entry>, name: &String) -> (path: Option<String>)
    ensures
        match path {
            Some(p) => has_entry(entry_views(es@), name@) && p@ == last_path(entry_views(es@), name@),
            None => !has_entry(entry_views(es@), name@),
        },
{
    let ghost vs = entry_views(es@);
    let mut i: usize = es.len();
    assert(vs.take(i as int) =~= vs);
    while i > 0
        invariant
            i <= es@.len(),
            vs == entry_views(es@),
            last_path(vs, name@) == last_path(vs.take(i as int), name@),
            forall|j: int| i <= j < vs.len() ==> (#[trigger] vs[j]).0 != name@,
        decreases i,
    {
        proof {
            assert(vs.take(i as int).drop_last() =~= vs.take(i - 1));
            assert(vs[i - 1] == (es@[i - 1].0@, es@[i - 1].1@));
        }
        if es[i - 1].0 == *name {
            proof {
                assert(vs[i - 1].0 == name@);
            }
            return Some(es[i - 1].1.clone());
        }
        i = i - 1;
    }
    proof {
        assert forall|j: int| 0 <= j < vs.len() implies (#[trigger] vs[j]).0 != name@ by {}
    }
    None
}

/// Whether some entry of `kept` is called `name`.
fn kept_has(kept: &Vec<Entry>, name: &String) -> (found: bool)
    ensures
        found == has_entry(entry_views(kept@), name@),
{
    let ghost vs = entry_views(kept@);
    let mut j: usize = 0;
    while j < kept.len()
        invariant
            j <= kept@.len(),
            vs == entry_views(kept@),
            forall|t: int| 0 <= t < j ==> (#[trigger] vs[t]).0 != name@,
        decreases kept@.len() - j,
    {
        proof {
            assert(vs[j as int] == (kept@[j as int].0@, kept@[j as int].1@));
        }
        if kept[j].0 == *name {
            return true;
        }
        j = j + 1;
    }
    false
}

/// Brings the table in line with the projects called `projects`: the table
/// as a map (a later entry of a name replacing an earlier one) without the
/// names of no project, and the projects that have no entry, in order.
pub fn reconcile_table(entries: &Vec<Entry>, projects: &Vec<String>) -> (r: (Vec<Entry>, Vec<String>))
    ensures
        kept_table(entry_views(entries@), string_views(projects@), entry_views(r.0@)),
        r.1@ == projects@.filter(|p: String| lacks_entry(entry_views(entries@), p)),
{
    let ghost es = entry_views(entries@);
    let ghost ps = string_views(projects@);
    let mut kept: Vec<Entry> = Vec::new();
    let mut i: usize = 0;
    while i < entries.len()
        invariant
            i <= entries@.len(),
            es == entry_views(entries@),
            ps == string_views(projects@),
            forall|a: int, b: int|
                0 <= a < b < kept@.len() ==> (#[trigger] entry_views(kept@)[a]).0 != (
                #[trigger] entry_views(kept@)[b]).0,
            forall|a: int|
                0 <= a < kept@.len() ==> ps.contains((#[trigger] entry_views(kept@)[a]).0)
                    && has_entry(es, entry_views(kept@)[a].0) && entry_views(kept@)[a].1
                    == last_path(es, entry_views(kept@)[a].0),
            forall|j: int|
                0 <= j < i && ps.contains((#[trigger] es[j]).0) ==> has_entry(entry_views(kept@), es[j].0),
        decreases entries@.len() - i,
    {
        let ghost before = entry_views(kept@);
        let name = &entries[i].0;
        proof {
            assert(es[i as int] == (entries@[i as int].0@, entries@[i as int].1@));
        }
        if contains_name(projects, name) && !kept_has(&kept, name) {
            let found = last_entry_for(entries, name);
            match found {
                Some(path) => {
                    kept.push((name.clone(), path));
                    proof {
                        let now = entry_views(kept@);
                        assert(now =~= before.push((name@, path@)));
                        assert forall|j: int| 0 <= j <= i && ps.contains((#[trigger] es[j]).0) implies has_entry(now, es[j].0) by {
                            if j < i {
                                let t = choose|t: int| 0 <= t < before.len() && (#[trigger] before[t]).0 == es[j].0;
                                assert(now[t] == before[t]);
                            } else {
                                assert(now[before.len() as int].0 == name@);
                            }
                        }
                    }
                },
                None => {
                    proof {
                        assert(es[i as int].0 == name@);
                    }
                },
            }
        }
        i = i + 1;
    }
    proof {
        let kv = entry_views(kept@);
        assert forall|n: Seq<char>| ps.contains(n) && has_entry(es, n) implies exists|a: int|
            0 <= a < kv.len() && (#[trigger] kv[a]).0 == n by {
            let j = choose|j: int| 0 <= j < es.len() && (#[trigger] es[j]).0 == n;
            assert(has_entry(kv, es[j].0));
        }
    }
    let mut missing: Vec<String> = Vec::new();
    let mut k: usize = 0;
    while k < projects.len()
        invariant
            k <= projects@.len(),
            es == entry_views(entries@),
            missing@ == projects@.take(k as int).filter(|p: String| lacks_entry(es, p)),
        decreases projects@.len() - k,
    {
        let found = last_entry_for(entries, &projects[k]);
        proof {
            reveal(Seq::filter);
            assert(projects@.take(k + 1).drop_last() =~= projects@.take(k as int));
            assert(projects@.take(k + 1).last() == projects@[k as int]);
        }
        if found.is_none() {
            missing.push(projects[k].clone());
        }
        k = k + 1;
    }
    assert(projects@.take(k as int) =~= projects@);
    (kept, missing)
}

} // verus!
