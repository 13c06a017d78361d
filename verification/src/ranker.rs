//! The ranker: a list of projects, the selected one, and the window of items
//! that are being compared with each other.
use vstd::prelude::*;

use crate::bitmask::{mask_bit, ones};
use crate::error::ProjectsError;
use crate::project::{logged, reset_of, synced, synced_len, Project};
use crate::random::{choose_from, lemma_same_elements, shuffle};

verus! {

broadcast use {vstd::seq_lib::group_to_multiset_ensures, vstd::seq::Seq::group_seq_flatten};

/// How many mutually uncompared items a new window takes at most.
pub const DEFUALT_WINDOW_SIZE: usize = 9;

/// One rating update of a finished window, in the order the updates are made:
/// `player` is rated against `opponent` with `score` (1 when `player` won).
/// `player_updated` and `opponent_updated` say whether that item was already
/// given a new rating earlier in the same window, whose value is then used.
#[derive(Debug, Clone, Copy, PartialEq, Eq)]
pub struct EloStep {
    pub player: u16,
    pub opponent: u16,
    pub score: u8,
    pub player_updated: bool,
    pub opponent_updated: bool,
}

/// The projects and the state of the comparisons in the selected one.
pub struct Ranker {
    selected_project: usize,
    projects: Vec<Project>,
    no_projects: bool,
    window_size: usize,
    window: Vec<u16>,
    item_a: usize,
    item_b: usize,
    item_a_won: bool,
    pending_ratings: Option<Vec<EloStep>>,
    pub window_rated_items: usize,
}

/// Every item of `w` is an item of `p`.
pub open spec fn in_range(p: Project, w: Seq<u16>) -> bool {
    forall|t: int| 0 <= t < w.len() ==> (#[trigger] w[t] as int) < p.len()
}

/// Every two different items of `w` were compared.
pub open spec fn window_done(p: Project, w: Seq<u16>) -> bool {
    forall|a: int, b: int|
        0 <= a < w.len() && 0 <= b < w.len() && w[a] != w[b] ==> #[trigger] mask_bit(
            p.bitmasks@[w[a] as int]@,
            w[b] as int,
        )
}

/// Every item of `p` was compared with every item.
pub open spec fn all_complete(p: Project) -> bool {
    forall|i: int| 0 <= i < p.bitmasks@.len() ==> ones(#[trigger] p.bitmasks@[i]@) >= p.len()
}

/// Item `x` has an item of `w` that it was not compared with.
pub open spec fn has_open_pair(p: Project, w: Seq<u16>, x: int) -> bool {
    exists|b: int| 0 <= b < w.len() && !#[trigger] mask_bit(p.bitmasks@[x]@, w[b] as int)
}

/// What a window drawn for `p` with room for `ws` items looks like: distinct
/// items, the first not yet compared with everything, no two compared with each
/// other, at most `ws` of them (when `ws` is at least 2), and, unless it is
/// full, every other item compared with one of them.
pub open spec fn fresh_window(p: Project, w: Seq<u16>, ws: int) -> bool {
    &&& w.len() >= 1
    &&& w.no_duplicates()
    &&& in_range(p, w)
    &&& ones(p.bitmasks@[w[0] as int]@) < p.len()
    &&& forall|a: int, b: int|
        0 <= a < w.len() && 0 <= b < w.len() && a != b ==> !#[trigger] mask_bit(
            p.bitmasks@[w[a] as int]@,
            w[b] as int,
        )
    &&& ws >= 2 ==> w.len() <= ws
    &&& (w.len() < ws || ws <= 1) ==> forall|i: int| 0 <= i < p.len() ==> #[trigger] covered(p, w, i)
}

/// Item `i` is one of the items of `w`.
pub open spec fn holds_item(w: Seq<u16>, i: int) -> bool {
    exists|a: int| 0 <= a < w.len() && w[a] as int == i
}

/// Item `i` is one of the items of `w`, or was compared with one of them.
pub open spec fn in_or_met(p: Project, w: Seq<u16>, i: int) -> bool {
    ||| holds_item(w, i)
    ||| exists|a: int| 0 <= a < w.len() && #[trigger] p.compared(i, w[a] as int)
}

/// A drawn window is as large as it can be made: at most `ws` items (for
/// `ws >= 2`), distinct and never compared with each other; and when it holds
/// fewer than `ws`, every item of the project is in it or was compared with one
/// of its items, so that no item could have joined it.
pub proof fn law_window_maximal(p: Project, w: Seq<u16>, ws: int)
    requires
        fresh_window(p, w, ws),
        p.well_formed(),
        ws >= 2,
    ensures
        1 <= w.len() <= ws,
        forall|a: int, b: int|
            0 <= a < w.len() && 0 <= b < w.len() && a != b ==> w[a] != w[b] && !p.compared(
                #[trigger] w[a] as int,
                #[trigger] w[b] as int,
            ),
        w.len() < ws ==> forall|i: int| 0 <= i < p.len() ==> #[trigger] in_or_met(p, w, i),
{
    assert forall|a: int, b: int|
        0 <= a < w.len() && 0 <= b < w.len() && a != b implies w[a] != w[b] && !p.compared(
            #[trigger] w[a] as int,
            #[trigger] w[b] as int,
        ) by {
        assert(!mask_bit(p.bitmasks@[w[a] as int]@, w[b] as int));
    }
    if w.len() < ws {
        assert forall|i: int| 0 <= i < p.len() implies #[trigger] in_or_met(p, w, i) by {
            assert(covered(p, w, i));
            assert((i as u16) as int == i);
            if w.contains(i as u16) {
                let a = choose|a: int| 0 <= a < w.len() && w[a] == i as u16;
                assert(w[a] as int == i);
                assert(holds_item(w, i));
            } else {
                let b = choose|b: int| 0 <= b < w.len() && #[trigger] mask_bit(p.bitmasks@[i]@, w[b] as int);
                assert(p.compared(i, w[b] as int));
            }
        }
    }
}

/// A sequence of distinct items below `n`, fewer than `n` of them, misses one.
proof fn lemma_missing_item(w: Seq<u16>, n: int)
    requires
        w.no_duplicates(),
        w.len() < n,
        n <= 65536,
        forall|t: int| 0 <= t < w.len() ==> (#[trigger] w[t] as int) < n,
    ensures
        exists|i: int| 0 <= i < n && !#[trigger] holds_item(w, i),
{
    broadcast use vstd::set::group_set_axioms;
    broadcast use vstd::seq_lib::seq_to_set_is_finite;
    let wi = w.map_values(|x: u16| x as int);
    assert(wi.no_duplicates()) by {
        assert forall|a: int, b: int| 0 <= a < wi.len() && 0 <= b < wi.len() && a != b implies wi[a] != wi[b] by {
            assert(w[a] != w[b]);
        }
    }
    wi.unique_seq_to_set();
    if forall|i: int| 0 <= i < n ==> #[trigger] holds_item(w, i) {
        assert(vstd::set_lib::set_int_range(0, n).subset_of(wi.to_set())) by {
            assert forall|i: int| vstd::set_lib::set_int_range(0, n).contains(i) implies wi.to_set().contains(i) by {
                assert(holds_item(w, i));
                let a = choose|a: int| 0 <= a < w.len() && w[a] as int == i;
                assert(wi[a] == i);
            }
        }
        vstd::set_lib::lemma_int_range(0, n);
        vstd::set_lib::lemma_len_subset(vstd::set_lib::set_int_range(0, n), wi.to_set());
        assert(false);
    }
}

/// In a project where no two items were compared yet, a drawn window is full:
/// with at least `ws >= 2` items, it holds exactly `ws` of them.
pub proof fn law_window_full_when_unrated(p: Project, w: Seq<u16>, ws: int)
    requires
        fresh_window(p, w, ws),
        p.well_formed(),
        2 <= ws <= p.len(),
        forall|i: int, k: int| 0 <= i < p.len() && 0 <= k < p.len() && i != k ==> !#[trigger] p.compared(i, k),
    ensures
        w.len() == ws,
{
    law_window_maximal(p, w, ws);
    if w.len() < ws {
        lemma_missing_item(w, p.len());
        let i = choose|i: int| 0 <= i < p.len() && !#[trigger] holds_item(w, i);
        assert(in_or_met(p, w, i));
        let a = choose|a: int| 0 <= a < w.len() && #[trigger] p.compared(i, w[a] as int);
        assert(w[a] as int != i);
        assert((w[a] as int) < p.len());
        assert(!p.compared(i, w[a] as int));
    }
}

/// Item `i` is in `w` or was compared with one of its items.
pub open spec fn covered(p: Project, w: Seq<u16>, i: int) -> bool {
    w.contains(i as u16) || exists|b: int|
        0 <= b < w.len() && #[trigger] mask_bit(p.bitmasks@[i]@, w[b] as int)
}

/// The update that rates `w[a]` against `w[b]`, with the results `res` of the window.
pub open spec fn elo_step(w: Seq<u16>, res: Seq<crate::bitmask::BitMask>, a: int, b: int) -> EloStep {
    EloStep {
        player: w[a],
        opponent: w[b],
        score: if mask_bit(res[w[a] as int]@, w[b] as int) {
            1u8
        } else {
            0u8
        },
        player_updated: b > if a == 0 {
            1int
        } else {
            0int
        },
        opponent_updated: b < a,
    }
}

/// The updates of `w[a]`: against every other item of the window, in window order.
pub open spec fn elo_row(w: Seq<u16>, res: Seq<crate::bitmask::BitMask>, a: int) -> Seq<EloStep> {
    Seq::new(
        (w.len() - 1) as nat,
        |t: int|
            elo_step(
                w,
                res,
                a,
                if t < a {
                    t
                } else {
                    t + 1
                },
            ),
    )
}

/// Item `r` and item `q` are the items at positions `x` and `y` of `w`, two
/// different positions that come before `(a, b)` in row-by-row order.
pub open spec fn cleared(w: Seq<u16>, a: int, b: int, r: int, q: int) -> bool {
    exists|x: int, y: int|
        0 <= x < w.len() && 0 <= y < w.len() && x != y && (x < a || (x == a && y < b)) && w[x] == r
            && w[y] == q
}

/// All rating updates of a finished window, item by item in window order.
pub open spec fn elo_schedule(w: Seq<u16>, res: Seq<crate::bitmask::BitMask>) -> Seq<EloStep> {
    Seq::new(w.len(), |a: int| elo_row(w, res, a)).flatten()
}

/// A fresh window of a well-formed project holds at least two items.
pub proof fn lemma_fresh_window_has_pair(p: Project, w: Seq<u16>, ws: int)
    requires
        p.well_formed(),
        fresh_window(p, w, ws),
    ensures
        w.len() >= 2,
{
    let r = w[0] as int;
    let n = p.len();
    if forall|k: int| 0 <= k < n ==> #[trigger] mask_bit(p.bitmasks@[r]@, k) {
        crate::bitmask::lemma_ones_full(p.bitmasks@[r]@, n);
    }
    let k = choose|k: int| 0 <= k < n && !#[trigger] mask_bit(p.bitmasks@[r]@, k);
    assert(mask_bit(p.bitmasks@[r]@, r));
    if w.len() == 1 {
        assert(covered(p, w, k));
        if w.contains(k as u16) {
            assert(w[0] == k as u16);
        } else {
            let b = choose|b: int| 0 <= b < w.len() && #[trigger] mask_bit(p.bitmasks@[k]@, w[b] as int);
            assert(b == 0);
            assert(mask_bit(p.bitmasks@[k]@, r) == mask_bit(p.bitmasks@[r]@, k));
        }
    }
}

/// An item with an item of the window it was not compared with has an opponent
/// there other than itself.
pub proof fn lemma_open_pair_has_opponent(p: Project, w: Seq<u16>, x: int)
    requires
        p.well_formed(),
        0 <= x < p.len(),
        has_open_pair(p, w, x),
    ensures
        !(forall|b: int| 0 <= b < w.len() ==> w[b] == x || #[trigger] mask_bit(p.bitmasks@[x]@, w[b] as int)),
{
    let b = choose|b: int| 0 <= b < w.len() && !#[trigger] mask_bit(p.bitmasks@[x]@, w[b] as int);
    assert(mask_bit(p.bitmasks@[x]@, x));
}

/// `a` comes before `b` in lexicographic order of their characters (code points).
pub open spec fn name_lt(a: Seq<char>, b: Seq<char>) -> bool
    decreases a.len(),
{
    if a.len() == 0 {
        b.len() > 0
    } else if b.len() == 0 {
        false
    } else if a[0] != b[0] {
        (a[0] as u32) < (b[0] as u32)
    } else {
        name_lt(a.drop_first(), b.drop_first())
    }
}

/// The order on names is transitive.
pub proof fn lemma_name_lt_transitive(a: Seq<char>, b: Seq<char>, c: Seq<char>)
    requires
        name_lt(a, b),
        name_lt(b, c),
    ensures
        name_lt(a, c),
    decreases a.len(),
{
    if a.len() > 0 && b.len() > 0 && c.len() > 0 && a[0] == b[0] && b[0] == c[0] {
        lemma_name_lt_transitive(a.drop_first(), b.drop_first(), c.drop_first());
    }
}

/// The order on names is irreflexive.
pub proof fn lemma_name_lt_irreflexive(a: Seq<char>)
    ensures
        !name_lt(a, a),
    decreases a.len(),
{
    if a.len() > 0 {
        lemma_name_lt_irreflexive(a.drop_first());
    }
}

/// Whether the name `a` comes before the name `b`, comparing their characters
/// in turn; this is the order of `String`, which compares the UTF-8 bytes.
fn name_less(a: &String, b: &String) -> (less: bool)
    ensures
        less == name_lt(a@, b@),
{
    let sa = a.as_str();
    let sb = b.as_str();
    let la = sa.unicode_len();
    let lb = sb.unicode_len();
    let mut i: usize = 0;
    assert(a@.skip(0) =~= a@);
    assert(b@.skip(0) =~= b@);
    while i < la && i < lb
        invariant
            sa@ == a@,
            sb@ == b@,
            la == a@.len(),
            lb == b@.len(),
            i <= la,
            i <= lb,
            name_lt(a@, b@) == name_lt(a@.skip(i as int), b@.skip(i as int)),
        decreases la - i,
    {
        let ca = sa.get_char(i);
        let cb = sb.get_char(i);
        let ghost ra = a@.skip(i as int);
        let ghost rb = b@.skip(i as int);
        assert(ra[0] == ca && rb[0] == cb);
        if ca != cb {
            return (ca as u32) < (cb as u32);
        }
        assert(ra.drop_first() =~= a@.skip(i + 1));
        assert(rb.drop_first() =~= b@.skip(i + 1));
        i = i + 1;
    }
    i == la && i < lb
}

/// `a` comes before `b` in the lexicographic order of their characters: they
/// agree on a common prefix of length `k`, after which either `a` ends while
/// `b` goes on, or `a`'s next character is the smaller one.
pub open spec fn lex_before(a: Seq<char>, b: Seq<char>) -> bool {
    exists|k: int|
        0 <= k <= a.len() && k <= b.len() && #[trigger] a.take(k) == b.take(k) && ((k == a.len() && k
            < b.len()) || (k < a.len() && k < b.len() && (a[k] as u32) < (b[k] as u32)))
}

/// The order `name_less` computes is the lexicographic order of characters.
pub proof fn lemma_name_lt_is_lex(a: Seq<char>, b: Seq<char>)
    ensures
        name_lt(a, b) == lex_before(a, b),
    decreases a.len(),
{
    if a.len() == 0 {
        if b.len() > 0 {
            assert(a.take(0) =~= b.take(0));
        }
    } else if b.len() == 0 {
    } else if a[0] != b[0] {
        if (a[0] as u32) < (b[0] as u32) {
            assert(a.take(0) =~= b.take(0));
        }
        if lex_before(a, b) {
            let k = choose|k: int|
                0 <= k <= a.len() && k <= b.len() && #[trigger] a.take(k) == b.take(k) && ((k == a.len()
                    && k < b.len()) || (k < a.len() && k < b.len() && (a[k] as u32) < (b[k] as u32)));
            if k > 0 {
                assert(a.take(k)[0] == b.take(k)[0]);
            }
        }
    } else {
        let a1 = a.drop_first();
        let b1 = b.drop_first();
        lemma_name_lt_is_lex(a1, b1);
        if lex_before(a1, b1) {
            let k = choose|k: int|
                0 <= k <= a1.len() && k <= b1.len() && #[trigger] a1.take(k) == b1.take(k) && ((k
                    == a1.len() && k < b1.len()) || (k < a1.len() && k < b1.len() && (a1[k] as u32) < (
                b1[k] as u32)));
            assert(a.take(k + 1) =~= seq![a[0]] + a1.take(k));
            assert(b.take(k + 1) =~= seq![b[0]] + b1.take(k));
            assert(a.take(k + 1) == b.take(k + 1));
        }
        if lex_before(a, b) {
            let k = choose|k: int|
                0 <= k <= a.len() && k <= b.len() && #[trigger] a.take(k) == b.take(k) && ((k == a.len()
                    && k < b.len()) || (k < a.len() && k < b.len() && (a[k] as u32) < (b[k] as u32)));
            assert(k > 0);
            assert(a1.take(k - 1) =~= a.take(k).drop_first());
            assert(b1.take(k - 1) =~= b.take(k).drop_first());
            assert(a1.take(k - 1) == b1.take(k - 1));
        }
    }
}

/// Projects loaded are in `String` order of their names: no project's name
/// comes, lexicographically by characters, before the name of one ahead of it.
pub proof fn law_projects_in_name_order(ps: Seq<Project>)
    requires
        sorted_by_name(ps),
    ensures
        forall|i: int, j: int| 0 <= i < j < ps.len() ==> !lex_before(#[trigger] ps[j].name@, #[trigger] ps[i].name@),
{
    assert forall|i: int, j: int| 0 <= i < j < ps.len() implies !lex_before(#[trigger] ps[j].name@, #[trigger] ps[i].name@) by {
        lemma_name_lt_is_lex(ps[j].name@, ps[i].name@);
    }
}

/// Whether every name in `ps` comes no later than the names after it.
pub open spec fn sorted_by_name(ps: Seq<Project>) -> bool {
    forall|i: int, j: int| 0 <= i < j < ps.len() ==> !name_lt(#[trigger] ps[j].name@, #[trigger] ps[i].name@)
}

/// Inserting an element into a sequence inserts it into its multiset.
proof fn lemma_insert_multiset<A>(o: Seq<A>, pos: int, x: A)
    requires
        0 <= pos <= o.len(),
    ensures
        o.insert(pos, x).to_multiset() == o.to_multiset().insert(x),
{
    broadcast use vstd::multiset::group_multiset_axioms;

    let s = o.insert(pos, x);
    assert(s.remove(pos) =~= o);
    s.to_multiset_ensures();
    assert(s[pos] == x);
    assert(s.contains(x));
    assert(s.to_multiset() =~= o.to_multiset().insert(x));
}

/// The projects ordered by name.
fn sort_by_name(mut ps: Vec<Project>) -> (sorted: Vec<Project>)
    ensures
        sorted@.to_multiset() == ps@.to_multiset(),
        sorted_by_name(sorted@),
{
    broadcast use vstd::multiset::group_multiset_axioms;

    let ghost all = ps@;
    let mut out: Vec<Project> = Vec::new();
    while ps.len() > 0
        invariant
            out@.to_multiset().add(ps@.to_multiset()) == all.to_multiset(),
            sorted_by_name(out@),
        decreases ps@.len(),
    {
        let ghost before = ps@;
        let x = ps.remove(0);
        proof {
            before.to_multiset_ensures();
            assert(before.remove(0) =~= ps@);
        }
        let mut pos: usize = 0;
        while pos < out.len() && !name_less(&x.name, &out[pos].name)
            invariant
                pos <= out@.len(),
                forall|k: int| 0 <= k < pos ==> !name_lt(x.name@, #[trigger] out@[k].name@),
            decreases out@.len() - pos,
        {
            pos = pos + 1;
        }
        let ghost o = out@;
        out.insert(pos, x);
        proof {
            assert(out@ == o.insert(pos as int, x));
            lemma_insert_multiset(o, pos as int, x);
            assert(before[0] == x);
            assert(out@.to_multiset().add(ps@.to_multiset()) =~= all.to_multiset());
            assert forall|i: int, j: int| 0 <= i < j < out@.len() implies !name_lt(#[trigger] out@[j].name@, #[trigger] out@[i].name@) by {
                if j == pos {
                    assert(!name_lt(x.name@, o[i].name@));
                    if name_lt(x.name@, o[i].name@) {
                    }
                } else if i == pos {
                    let jj = j - 1;
                    assert(out@[j] == o[jj]);
                    if name_lt(o[jj].name@, x.name@) {
                        if pos < o.len() {
                            assert(name_lt(x.name@, o[pos as int].name@));
                            if jj > pos {
                                assert(!name_lt(o[jj].name@, o[pos as int].name@));
                            }
                            lemma_name_lt_transitive(o[jj].name@, x.name@, o[pos as int].name@);
                            if jj == pos {
                                lemma_name_lt_irreflexive(o[jj].name@);
                            }
                        }
                    }
                } else {
                    let ii = if i < pos { i } else { i - 1 };
                    let jj = if j < pos { j } else { j - 1 };
                    assert(out@[i] == o[ii] && out@[j] == o[jj]);
                }
            }
        }
    }
    out
}

/// What getting the selected project ready does, from the project `p` and the
/// window `w` it had: `p` stays as it was unless every item was compared with
/// every item, when its comparisons are forgotten; then a new window is drawn
/// where some item is still to be compared, and otherwise the window stays.
/// A window of two or more items holds the first item.
pub open spec fn init_effect(p: Project, w: Seq<u16>, rated: int, new: Ranker) -> bool {
    let q = new.current();
    &&& !all_complete(p) ==> q == p
    &&& all_complete(p) ==> reset_of(p, q)
    &&& !all_complete(q) ==> fresh_window(q, new.current_window(), new.size_of_window())
        && new.rated_in_window() == 0
    &&& all_complete(q) ==> new.current_window() == w && new.rated_in_window() == rated
    &&& new.current_window().len() >= 2 ==> new.current_window().contains(new.first_item() as u16)
        && new.first_item() < q.len()
}

/// Getting a project ready never touches its items: after `init` (or a
/// selection, which calls it) the selected project has the same name and the
/// same items, each with its rating, as before; only the comparison and result
/// matrices may be reset.
pub proof fn law_init_keeps_items(p: Project, w: Seq<u16>, rated: int, new: Ranker)
    requires
        init_effect(p, w, rated, new),
    ensures
        new.current().name == p.name,
        new.current().items@ == p.items@,
        new.current().total_ratings == p.total_ratings,
{
}

/// `i` is the first position of a project called `name` in `ps`.
pub open spec fn first_named(ps: Seq<Project>, name: Seq<char>, i: int) -> bool {
    &&& 0 <= i < ps.len()
    &&& ps[i].name@ == name
    &&& forall|j: int| 0 <= j < i ==> (#[trigger] ps[j]).name@ != name
}

/// Some project in `ps` is called `name`.
pub open spec fn named(ps: Seq<Project>, name: Seq<char>) -> bool {
    exists|i: int| 0 <= i < ps.len() && (#[trigger] ps[i]).name@ == name
}

/// The sum `1 + 2 + ... + (n - 1)`.
pub open spec fn sum_below(n: int) -> int
    decreases n,
{
    if n <= 1 {
        0
    } else {
        sum_below(n - 1) + (n - 1)
    }
}

proof fn lemma_sum_below_monotonic(k: int, n: int)
    requires
        k <= n,
    ensures
        sum_below(k) <= sum_below(n),
    decreases n - k,
{
    if k < n {
        lemma_sum_below_monotonic(k, n - 1);
    }
}

/// A window of `n` items holds `n (n - 1) / 2` pairs: the number of ratings
/// `get_num_ratings_in_window` gives for a window of `n` items.
pub proof fn law_window_pairs(n: int)
    requires
        n >= 0,
    ensures
        2 * sum_below(n) == n * (n - 1),
    decreases n,
{
    if n > 1 {
        law_window_pairs(n - 1);
        assert(2 * sum_below(n) == (n - 1) * (n - 2) + 2 * (n - 1));
        assert((n - 1) * (n - 2) + 2 * (n - 1) == n * (n - 1)) by (nonlinear_arith);
    } else {
        assert(n * (n - 1) == 0) by (nonlinear_arith)
            requires
                0 <= n <= 1,
        ;
    }
}

/// Rows that all have `m` entries flatten to `rows.len() * m` entries.
proof fn lemma_rows_length(rows: Seq<Seq<EloStep>>, m: int)
    requires
        m >= 0,
        forall|i: int| 0 <= i < rows.len() ==> (#[trigger] rows[i]).len() == m,
    ensures
        rows.flatten().len() == rows.len() * m,
    decreases rows.len(),
{
    if rows.len() > 0 {
        let init = rows.drop_last();
        assert forall|i: int| 0 <= i < init.len() implies (#[trigger] init[i]).len() == m by {
            assert(init[i] == rows[i]);
        }
        lemma_rows_length(init, m);
        assert(init.push(rows.last()) =~= rows);
        assert(rows.flatten() == init.flatten() + rows.last());
        let k = init.len() as int;
        assert(k * m + m == (k + 1) * m) by (nonlinear_arith);
    }
}

/// Entry `r` of row `a` of rows that all have `l` entries sits at `a * l + r` once they are flattened.
proof fn lemma_flatten_at(rows: Seq<Seq<EloStep>>, l: int, a: int, r: int)
    requires
        l >= 0,
        forall|i: int| 0 <= i < rows.len() ==> (#[trigger] rows[i]).len() == l,
        0 <= a < rows.len(),
        0 <= r < l,
    ensures
        a * l + r < rows.flatten().len(),
        rows.flatten()[a * l + r] == rows[a][r],
    decreases rows.len(),
{
    lemma_rows_length(rows, l);
    let init = rows.drop_last();
    assert forall|i: int| 0 <= i < init.len() implies (#[trigger] init[i]).len() == l by {
        assert(init[i] == rows[i]);
    }
    lemma_rows_length(init, l);
    assert(init.push(rows.last()) =~= rows);
    assert(rows.flatten() == init.flatten() + rows.last());
    let k = init.len() as int;
    if a < k {
        lemma_flatten_at(init, l, a, r);
        assert(init[a] == rows[a]);
    } else {
        assert(a == k);
    }
    assert(a * l + r < (a + 1) * l) by (nonlinear_arith)
        requires
            r < l,
    ;
    assert((a + 1) * l <= rows.len() * l) by (nonlinear_arith)
        requires
            a + 1 <= rows.len(),
            l >= 0,
    ;
}

/// A position below `m * l` is `a * l + r` for a row `a < m` and an entry `r < l`.
proof fn lemma_position(t: int, l: int, m: int) -> (ar: (int, int))
    requires
        0 <= t < m * l,
        l > 0,
    ensures
        t == ar.0 * l + ar.1,
        0 <= ar.0 < m,
        0 <= ar.1 < l,
{
    vstd::arithmetic::div_mod::lemma_fundamental_div_mod(t, l);
    vstd::arithmetic::div_mod::lemma_mod_pos_bound(t, l);
    let a = t / l;
    let r = t % l;
    assert(t == a * l + r) by (nonlinear_arith)
        requires
            t == l * a + r,
    ;
    assert(0 <= a < m) by (nonlinear_arith)
        requires
            t == a * l + r,
            0 <= r < l,
            0 <= t < m * l,
            l > 0,
    ;
    (a, r)
}

/// Positions `a * l + r` with `r < l` are ordered by row, then by entry.
proof fn lemma_position_order(a: int, r: int, a2: int, r2: int, l: int)
    requires
        0 <= r < l,
        0 <= r2 < l,
        0 <= a,
        0 <= a2,
    ensures
        (a2 * l + r2 < a * l + r) == (a2 < a || (a2 == a && r2 < r)),
{
    if a2 < a {
        assert(a2 * l + r2 < a * l + r) by (nonlinear_arith)
            requires
                a2 + 1 <= a,
                0 <= r2 < l,
                0 <= r,
        ;
    } else if a2 > a {
        assert(a2 * l + r2 >= a * l + r) by (nonlinear_arith)
            requires
                a + 1 <= a2,
                0 <= r < l,
                0 <= r2,
        ;
    }
}

/// In the rating updates of a finished window (of distinct items), a step's
/// player has already been given a new rating exactly when an earlier step has
/// the same player, and its opponent exactly when an earlier step has the
/// opponent as its player: the `player_updated` and `opponent_updated` flags
/// say which rating, the stored one or the new one, each game starts from.
pub proof fn law_schedule_updated_flags(w: Seq<u16>, res: Seq<crate::bitmask::BitMask>)
    requires
        w.no_duplicates(),
    ensures
        forall|t: int|
            0 <= t < elo_schedule(w, res).len() ==> (#[trigger] elo_schedule(w, res)[t]).player_updated
                == (exists|u: int| 0 <= u < t && elo_schedule(w, res)[u].player == elo_schedule(w, res)[t].player),
        forall|t: int|
            0 <= t < elo_schedule(w, res).len() ==> (#[trigger] elo_schedule(w, res)[t]).opponent_updated
                == (exists|u: int| 0 <= u < t && elo_schedule(w, res)[u].player == elo_schedule(w, res)[t].opponent),
        forall|t: int|
            0 <= t < elo_schedule(w, res).len() ==> (#[trigger] elo_schedule(w, res)[t]).player
                != elo_schedule(w, res)[t].opponent,
{
    let sch = elo_schedule(w, res);
    let m = w.len() as int;
    law_schedule_length(w, res);
    if m >= 2 {
        let l = m - 1;
        let rows = Seq::new(w.len(), |a: int| elo_row(w, res, a));
        assert forall|i: int| 0 <= i < rows.len() implies (#[trigger] rows[i]).len() == l by {}
        assert forall|t: int| 0 <= t < sch.len() implies {
            &&& (#[trigger] sch[t]).player_updated == (exists|u: int| 0 <= u < t && sch[u].player == sch[t].player)
            &&& sch[t].opponent_updated == (exists|u: int| 0 <= u < t && sch[u].player == sch[t].opponent)
            &&& sch[t].player != sch[t].opponent
        } by {
            let (a, r) = lemma_position(t, l, m);
            lemma_flatten_at(rows, l, a, r);
            let b = if r < a { r } else { r + 1 };
            assert(sch[t] == elo_step(w, res, a, b));
            assert(sch[t].player == w[a] && sch[t].opponent == w[b]);
            assert(a != b);
            if exists|u: int| 0 <= u < t && sch[u].player == sch[t].player {
                let u = choose|u: int| 0 <= u < t && sch[u].player == sch[t].player;
                let (a2, r2) = lemma_position(u, l, m);
                lemma_flatten_at(rows, l, a2, r2);
                let b2 = if r2 < a2 { r2 } else { r2 + 1 };
                assert(sch[u] == elo_step(w, res, a2, b2));
                assert(w[a2] == w[a]);
                assert(a2 == a);
                lemma_position_order(a, r, a2, r2, l);
            }
            if r > 0 {
                lemma_flatten_at(rows, l, a, 0);
                let b0 = if 0 < a { 0int } else { 1int };
                assert(sch[a * l] == elo_step(w, res, a, b0));
                lemma_position_order(a, r, a, 0, l);
                assert(0 <= a * l < t);
            }
            if exists|u: int| 0 <= u < t && sch[u].player == sch[t].opponent {
                let u = choose|u: int| 0 <= u < t && sch[u].player == sch[t].opponent;
                let (a2, r2) = lemma_position(u, l, m);
                lemma_flatten_at(rows, l, a2, r2);
                let b2 = if r2 < a2 { r2 } else { r2 + 1 };
                assert(sch[u] == elo_step(w, res, a2, b2));
                assert(w[a2] == w[b]);
                assert(a2 == b);
                lemma_position_order(a, r, a2, r2, l);
            }
            if b < a {
                lemma_flatten_at(rows, l, b, 0);
                let b0 = if 0 < b { 0int } else { 1int };
                assert(sch[b * l] == elo_step(w, res, b, b0));
                lemma_position_order(a, r, b, 0, l);
                assert(b * l + 0 < a * l + r);
                assert(0 <= b * l) by (nonlinear_arith)
                    requires
                        0 <= b,
                        l > 0,
                ;
                assert(0 <= b * l < t);
            }
        }
    } else {
        assert(sch.len() == 0) by (nonlinear_arith)
            requires
                sch.len() == m * (m - 1),
                0 <= m <= 1,
        ;
    }
}

/// A finished window of `m` items gives `m (m - 1)` rating updates: one for each
/// item against each other item.
pub proof fn law_schedule_length(w: Seq<u16>, res: Seq<crate::bitmask::BitMask>)
    ensures
        elo_schedule(w, res).len() == w.len() * (w.len() - 1),
{
    let rows = Seq::new(w.len(), |a: int| elo_row(w, res, a));
    if w.len() == 0 {
        assert(rows.len() == 0);
        assert(rows.flatten() =~= Seq::<EloStep>::empty());
    } else {
        assert forall|i: int| 0 <= i < rows.len() implies (#[trigger] rows[i]).len() == w.len() - 1 by {}
        lemma_rows_length(rows, w.len() - 1);
    }
}

/// A project added under a name no project had is the one found under that
/// name afterwards: `create_project` then `try_find_project` gives its position.
pub proof fn law_create_then_find(ps: Seq<Project>, p: Project)
    requires
        !named(ps, p.name@),
    ensures
        first_named(ps.push(p), p.name@, ps.len() as int),
{
    assert forall|j: int| 0 <= j < ps.len() implies (#[trigger] ps.push(p)[j]).name@ != p.name@ by {
        assert(ps.push(p)[j] == ps[j]);
    }
}

/// Among projects with distinct names, removing the one found under a name
/// leaves none under it: `try_delete_project_by_name` then `try_find_project`
/// finds nothing.
pub proof fn law_delete_then_gone(ps: Seq<Project>, name: Seq<char>, i: int)
    requires
        forall|a: int, b: int| 0 <= a < b < ps.len() ==> (#[trigger] ps[a]).name@ != (#[trigger] ps[b]).name@,
        first_named(ps, name, i),
    ensures
        !named(ps.remove(i), name),
{
    let rest = ps.remove(i);
    assert forall|j: int| 0 <= j < rest.len() implies (#[trigger] rest[j]).name@ != name by {
        if j < i {
            assert(rest[j] == ps[j]);
        } else {
            assert(rest[j] == ps[j + 1]);
            assert(ps[i].name@ != ps[j + 1].name@);
        }
    }
}

/// Where `name` first occurs among the names of `ps`.
fn find_named(ps: &Vec<Project>, name: &String) -> (found: Option<usize>)
    ensures
        match found {
            Some(i) => first_named(ps@, name@, i as int),
            None => !named(ps@, name@),
        },
{
    let mut i: usize = 0;
    while i < ps.len()
        invariant
            i <= ps@.len(),
            forall|j: int| 0 <= j < i ==> (#[trigger] ps@[j]).name@ != name@,
        decreases ps@.len() - i,
    {
        if ps[i].name == *name {
            return Some(i);
        }
        i = i + 1;
    }
    None
}

impl Ranker {
    /// Everything but the window and the first item is the same in `self` and `other`.
    closed spec fn same_frame(&self, other: &Ranker) -> bool {
        &&& self.selected_project == other.selected_project
        &&& self.projects == other.projects
        &&& self.no_projects == other.no_projects
        &&& self.window_size == other.window_size
        &&& self.item_b == other.item_b
        &&& self.item_a_won == other.item_a_won
        &&& self.pending_ratings == other.pending_ratings
        &&& self.window_rated_items == other.window_rated_items
    }

    /// Everything but the projects is the same in `self` and `other`.
    pub closed spec fn same_frame_except_projects(&self, other: &Ranker) -> bool {
        &&& self.selected_project == other.selected_project
        &&& self.no_projects == other.no_projects
        &&& self.window == other.window
        &&& self.window_size == other.window_size
        &&& self.item_a == other.item_a
        &&& self.item_b == other.item_b
        &&& self.item_a_won == other.item_a_won
        &&& self.pending_ratings == other.pending_ratings
        &&& self.window_rated_items == other.window_rated_items
    }

    /// Everything but the pending rating updates is the same in `self` and `other`.
    pub closed spec fn same_frame_except_pending(&self, other: &Ranker) -> bool {
        &&& self.selected_project == other.selected_project
        &&& self.projects == other.projects
        &&& self.no_projects == other.no_projects
        &&& self.window == other.window
        &&& self.window_size == other.window_size
        &&& self.item_a == other.item_a
        &&& self.item_b == other.item_b
        &&& self.item_a_won == other.item_a_won
        &&& self.window_rated_items == other.window_rated_items
    }

    pub closed spec fn selected(&self) -> int {
        self.selected_project as int
    }

    pub closed spec fn project_list(&self) -> Seq<Project> {
        self.projects@
    }

    pub closed spec fn has_no_projects(&self) -> bool {
        self.no_projects
    }

    pub closed spec fn size_of_window(&self) -> int {
        self.window_size as int
    }

    pub closed spec fn current_window(&self) -> Seq<u16> {
        self.window@
    }

    pub closed spec fn first_item(&self) -> int {
        self.item_a as int
    }

    pub closed spec fn second_item(&self) -> int {
        self.item_b as int
    }

    pub closed spec fn first_won(&self) -> bool {
        self.item_a_won
    }

    pub closed spec fn rated_in_window(&self) -> int {
        self.window_rated_items as int
    }

    pub closed spec fn pending(&self) -> Option<Seq<EloStep>> {
        match self.pending_ratings {
            Some(v) => Some(v@),
            None => None,
        }
    }

    /// The positions and counters a ranker holds are machine integers: none is
    /// negative, and each fits a `usize`.
    pub proof fn lemma_accessor_ranges(&self)
        ensures
            0 <= self.selected() <= usize::MAX,
            0 <= self.first_item() <= usize::MAX,
            0 <= self.second_item() <= usize::MAX,
            0 <= self.size_of_window() <= usize::MAX,
            0 <= self.rated_in_window() <= usize::MAX,
    {
    }

    /// The selected project.
    pub open spec fn current(&self) -> Project {
        self.project_list()[self.selected()]
    }

    /// What every operation on the selected project relies on: while there are
    /// projects, the selected one exists, is well formed, and the window holds
    /// distinct items of it.
    pub open spec fn consistent(&self) -> bool {
        &&& self.selection_valid()
        &&& !self.has_no_projects() ==> self.current().well_formed() && self.window_fits()
    }

    /// While there are projects, the selected one exists.
    pub open spec fn selection_valid(&self) -> bool {
        !self.has_no_projects() ==> 0 <= self.selected() < self.project_list().len()
    }

    /// Every project is well formed and, while there are projects, the selected one exists.
    pub open spec fn projects_sound(&self) -> bool {
        &&& forall|j: int|
            0 <= j < self.project_list().len() ==> (#[trigger] self.project_list()[j]).well_formed()
        &&& !self.has_no_projects() ==> 0 <= self.selected() < self.project_list().len()
    }

    /// The window holds distinct items of the selected project.
    pub open spec fn window_fits(&self) -> bool {
        &&& in_range(self.current(), self.current_window())
        &&& self.current_window().no_duplicates()
    }

    /// Draws a new window when some item of the selected project was not yet
    /// compared with every item: its first item is such an item, picked at
    /// random; then, in a random order, every item not compared with any item
    /// already in the window joins it, until it holds `window_size` items. The
    /// first item (`item_a`) becomes one of the window, picked at random. Returns
    /// whether a window was drawn; when not, nothing changes.
    pub fn get_new_window(&mut self) -> (found: bool)
        requires
            old(self).consistent(),
            !old(self).has_no_projects(),
        ensures
            final(self).project_list() == old(self).project_list(),
            final(self).selected() == old(self).selected(),
            final(self).has_no_projects() == old(self).has_no_projects(),
            final(self).size_of_window() == old(self).size_of_window(),
            final(self).second_item() == old(self).second_item(),
            final(self).first_won() == old(self).first_won(),
            final(self).pending() == old(self).pending(),
            final(self).consistent(),
            found == !all_complete(old(self).current()),
            !found ==> final(self).current_window() == old(self).current_window()
                && final(self).first_item() == old(self).first_item()
                && final(self).rated_in_window() == old(self).rated_in_window(),
            found ==> {
                &&& fresh_window(final(self).current(), final(self).current_window(), final(self).size_of_window())
                &&& final(self).current_window().contains(final(self).first_item() as u16)
                &&& final(self).first_item() < final(self).current().len()
                &&& final(self).rated_in_window() == 0
            },
    {
        let sel = self.selected_project;
        let ghost p = self.current();
        let n = self.projects[sel].items.len();
        let mut all_done = true;
        let mut i: usize = 0;
        while i < n && all_done
            invariant
                sel == self.selected(),
                sel < self.project_list().len(),
                p == self.current(),
                *self == *old(self),
                p.well_formed(),
                n == p.len(),
                i <= n,
                all_done ==> forall|t: int| 0 <= t < i ==> ones(#[trigger] p.bitmasks@[t]@) >= n,
                !all_done ==> !all_complete(p),
            decreases n - i + if all_done { 1int } else { 0int },
        {
            proof {
                crate::bitmask::lemma_ones_bounded(p.bitmasks@[i as int]@, n as int);
            }
            let c = self.projects[sel].bitmasks[i].get_num_ones();
            if c < n as u16 {
                all_done = false;
            } else {
                i = i + 1;
            }
        }
        if all_done {
            return false;
        }
        self.window_rated_items = 0;
        self.window = Vec::new();
        let ghost saved = *self;
        let mut idx: Vec<u16> = Vec::new();
        let mut k: usize = 0;
        while k < n
            invariant
                self.same_frame(&saved),
                self.window@ == saved.window@,
                k <= n,
                n <= u16::MAX,
                idx@.len() == k,
                forall|t: int| 0 <= t < k ==> #[trigger] idx@[t] == t,
            decreases n - k,
        {
            idx.push(k as u16);
            k = k + 1;
        }
        proof {
            assert forall|x: u16| #[trigger] idx@.contains(x) <==> (x as int) < n by {
                if (x as int) < n {
                    assert(idx@[x as int] == x);
                }
            }
        }
        let order = shuffle(idx.as_slice());
        proof {
            lemma_same_elements(order@, idx@);
        }
        let mut t: usize = 0;
        let mut picked = false;
        while t < order.len() && !picked
            invariant
                self.same_frame(&saved),
                sel == self.selected(),
                sel < self.project_list().len(),
                p == self.current(),
                self.project_list() == old(self).project_list(),
                p.well_formed(),
                n == p.len(),
                !all_complete(p),
                forall|x: u16| #[trigger] order@.contains(x) <==> (x as int) < n,
                t <= order@.len(),
                !picked ==> self.window@.len() == 0,
                !picked ==> forall|y: int| 0 <= y < t ==> ones(#[trigger] p.bitmasks@[order@[y] as int]@) >= n,
                picked ==> self.window@.len() == 1 && (self.window@[0] as int) < n
                    && ones(p.bitmasks@[self.window@[0] as int]@) < n,
            decreases order@.len() - t + if picked { 0int } else { 1int },
        {
            let x = order[t];
            assert(order@.contains(x));
            proof {
                crate::bitmask::lemma_ones_bounded(p.bitmasks@[x as int]@, n as int);
            }
            let c = self.projects[sel].bitmasks[x as usize].get_num_ones();
            if c < n as u16 {
                self.window = Vec::new();
                self.window.push(x);
                picked = true;
            } else {
                t = t + 1;
            }
        }
        if !picked {
            proof {
                let r = choose|r: int| 0 <= r < p.bitmasks@.len() && ones(#[trigger] p.bitmasks@[r]@) < p.len();
                assert(order@.contains(r as u16));
                let y = choose|y: int| 0 <= y < order@.len() && order@[y] == r as u16;
                assert(ones(p.bitmasks@[order@[y] as int]@) >= n);
            }
        }
        let order2 = shuffle(idx.as_slice());
        proof {
            lemma_same_elements(order2@, idx@);
        }
        let ws = self.window_size;
        let mut t: usize = 0;
        let mut full = false;
        while t < order2.len() && !full
            invariant
                self.same_frame(&saved),
                sel == self.selected(),
                sel < self.project_list().len(),
                p == self.current(),
                self.project_list() == old(self).project_list(),
                ws == self.size_of_window(),
                p.well_formed(),
                n == p.len(),
                forall|x: u16| #[trigger] order2@.contains(x) <==> (x as int) < n,
                t <= order2@.len(),
                self.window@.len() >= 1,
                self.window@.no_duplicates(),
                in_range(p, self.window@),
                ones(p.bitmasks@[self.window@[0] as int]@) < n,
                forall|a: int, b: int|
                    0 <= a < self.window@.len() && 0 <= b < self.window@.len() && a != b ==> !#[trigger] mask_bit(
                        p.bitmasks@[self.window@[a] as int]@,
                        self.window@[b] as int,
                    ),
                ws >= 2 ==> self.window@.len() <= ws,
                full ==> self.window@.len() == ws && ws >= 2,
                !full ==> (ws >= 2 ==> self.window@.len() < ws),
                forall|y: int| 0 <= y < t ==> #[trigger] covered(p, self.window@, order2@[y] as int),
            decreases order2@.len() - t + if full { 0int } else { 1int },
        {
            let x = order2[t];
            assert(order2@.contains(x));
            let ghost w0 = self.window@;
            let mut present = false;
            let mut q: usize = 0;
            while q < self.window.len()
                invariant
                    q <= self.window@.len(),
                    present <==> exists|b: int| 0 <= b < q && self.window@[b] == x,
                decreases self.window@.len() - q,
            {
                if self.window[q] == x {
                    present = true;
                }
                q = q + 1;
            }
            if present {
                proof {
                    let b = choose|b: int| 0 <= b < self.window@.len() && self.window@[b] == x;
                    assert(self.window@.contains(x));
                    assert(covered(p, self.window@, x as int));
                }
                t = t + 1;
            } else {
                let mut skip = false;
                let mut q: usize = 0;
                while q < self.window.len() && !skip
                    invariant
                        sel == self.selected(),
                        sel < self.project_list().len(),
                        p == self.current(),
                        p.well_formed(),
                        n == p.len(),
                        (x as int) < n,
                        in_range(p, self.window@),
                        q <= self.window@.len(),
                        !skip ==> forall|b: int| 0 <= b < q ==> !#[trigger] mask_bit(
                            p.bitmasks@[x as int]@,
                            self.window@[b] as int,
                        ),
                        skip ==> exists|b: int| 0 <= b < self.window@.len() && #[trigger] mask_bit(
                            p.bitmasks@[x as int]@,
                            self.window@[b] as int,
                        ),
                    decreases self.window@.len() - q + if skip { 0int } else { 1int },
                {
                    let j = self.window[q];
                    proof {
                        assert((j as int) < n);
                    }
                    let c = self.projects[sel].bitmasks[x as usize].check_bit(j);
                    assert(c == mask_bit(p.bitmasks@[x as int]@, j as int));
                    if c {
                        skip = true;
                    } else {
                        q = q + 1;
                    }
                }
                if skip {
                    proof {
                        assert(covered(p, self.window@, x as int));
                    }
                    t = t + 1;
                } else {
                    proof {
                        assert(!self.window@.contains(x));
                    }
                    self.window.push(x);
                    proof {
                        let w1 = self.window@;
                        assert(w1 == w0.push(x));
                        assert forall|a: int, b: int|
                            0 <= a < w1.len() && 0 <= b < w1.len() && a != b implies !#[trigger] mask_bit(
                            p.bitmasks@[w1[a] as int]@,
                            w1[b] as int,
                        ) by {
                            if a == w0.len() {
                                assert(!mask_bit(p.bitmasks@[x as int]@, w0[b] as int));
                            } else if b == w0.len() {
                                assert(!mask_bit(p.bitmasks@[x as int]@, w0[a] as int));
                                assert(mask_bit(p.bitmasks@[x as int]@, w0[a] as int) == mask_bit(
                                    p.bitmasks@[w0[a] as int]@,
                                    x as int,
                                ));
                            } else {
                                assert(w1[a] == w0[a] && w1[b] == w0[b]);
                            }
                        }
                        assert forall|y: int| 0 <= y <= t implies #[trigger] covered(p, w1, order2@[y] as int) by {
                            if y < t {
                                assert(covered(p, w0, order2@[y] as int));
                                if w0.contains(order2@[y]) {
                                    let b = choose|b: int| 0 <= b < w0.len() && w0[b] == order2@[y];
                                    assert(w1[b] == order2@[y]);
                                } else {
                                    let b = choose|b: int| 0 <= b < w0.len() && #[trigger] mask_bit(
                                        p.bitmasks@[order2@[y] as int]@,
                                        w0[b] as int,
                                    );
                                    assert(w1[b] == w0[b]);
                                }
                            } else {
                                assert(w1[w0.len() as int] == x);
                            }
                        }
                    }
                    if self.window.len() == ws {
                        full = true;
                    }
                    t = t + 1;
                }
            }
        }
        proof {
            let w = self.window@;
            if !full {
                assert forall|i: int| 0 <= i < n implies #[trigger] covered(p, w, i) by {
                    assert(order2@.contains(i as u16));
                    let y = choose|y: int| 0 <= y < order2@.len() && order2@[y] == i as u16;
                    assert(covered(p, w, order2@[y] as int));
                }
            }
        }
        let pick = choose_from(&self.window);
        match pick {
            Some(a) => {
                proof {
                    let b = choose|b: int| 0 <= b < self.window@.len() && self.window@[b] == a;
                    assert((self.window@[b] as int) < n);
                }
                self.item_a = a as usize;
            },
            None => {
                assert(false);
            },
        }
        true
    }

    /// Reads off the rating updates of the window from its results, in window
    /// order, and clears the result of every pair of window items.
    fn update_results_elos(&mut self) -> (steps: Vec<EloStep>)
        requires
            old(self).consistent(),
            !old(self).has_no_projects(),
        ensures
            final(self).consistent(),
            final(self).selected() == old(self).selected(),
            final(self).has_no_projects() == old(self).has_no_projects(),
            final(self).current_window() == old(self).current_window(),
            final(self).project_list().len() == old(self).project_list().len(),
            forall|j: int| 0 <= j < old(self).project_list().len() && j != old(self).selected() ==> #[trigger] final(self).project_list()[j] == old(self).project_list()[j],
            final(self).current().name == old(self).current().name,
            final(self).current().items == old(self).current().items,
            final(self).current().bitmasks == old(self).current().bitmasks,
            final(self).current().total_ratings == old(self).current().total_ratings,
            final(self).current().num_rated_items == old(self).current().num_rated_items,
            final(self).current().results@.len() == old(self).current().results@.len(),
            steps@ == elo_schedule(old(self).current_window(), old(self).current().results@),
            forall|r: int, q: int|
                0 <= r < old(self).current().len() ==> #[trigger] mask_bit(final(self).current().results@[r]@, q)
                    == (mask_bit(old(self).current().results@[r]@, q) && !(old(self).current_window().contains(r as u16)
                    && old(self).current_window().contains(q as u16) && r != q && 0 <= q)),
            final(self).same_frame_except_projects(old(self)),
    {
        let sel = self.selected_project;
        let ghost w = self.window@;
        let ghost res0 = self.current().results@;
        let ghost p0 = self.current();
        let ghost rows = Seq::new(w.len(), |a: int| elo_row(w, res0, a));
        let m = self.window.len();
        let mut steps: Vec<EloStep> = Vec::new();
        let mut a: usize = 0;
        while a < m
            invariant
                sel == self.selected(),
                sel < self.project_list().len(),
                w == self.window@,
                m == w.len(),
                a <= m,
                rows == Seq::new(w.len(), |a: int| elo_row(w, res0, a)),
                steps@ == rows.take(a as int).flatten(),
                self.same_frame_except_projects(old(self)),
                w == old(self).current_window(),
                w.no_duplicates(),
                in_range(p0, w),
                p0 == old(self).current(),
                p0.well_formed(),
                res0 == p0.results@,
                self.project_list().len() == old(self).project_list().len(),
                forall|j: int| 0 <= j < old(self).project_list().len() && j != sel ==> #[trigger] self.project_list()[j] == old(self).project_list()[j],
                self.current().name == p0.name,
                self.current().items == p0.items,
                self.current().bitmasks == p0.bitmasks,
                self.current().total_ratings == p0.total_ratings,
                self.current().num_rated_items == p0.num_rated_items,
                self.current().results@.len() == res0.len(),
                forall|r: int| 0 <= r < res0.len() ==> (#[trigger] self.current().results@[r])@.len() == res0[r]@.len(),
                forall|r: int, q: int|
                    0 <= r < res0.len() ==> #[trigger] mask_bit(self.current().results@[r]@, q)
                        == (mask_bit(res0[r]@, q) && !cleared(w, a as int, 0, r, q)),
            decreases m - a,
        {
            let i = self.window[a];
            let first: usize = if a == 0 { 1 } else { 0 };
            let mut b: usize = 0;
            while b < m
                invariant
                    sel == self.selected(),
                    sel < self.project_list().len(),
                    w == self.window@,
                    m == w.len(),
                    a < m,
                    i == w[a as int],
                    first == if a == 0 { 1usize } else { 0usize },
                    b <= m,
                    rows == Seq::new(w.len(), |a: int| elo_row(w, res0, a)),
                    steps@ == rows.take(a as int).flatten() + rows[a as int].take(if b <= a { b as int } else { b - 1 }),
                    self.same_frame_except_projects(old(self)),
                    w == old(self).current_window(),
                    w.no_duplicates(),
                    in_range(p0, w),
                    p0 == old(self).current(),
                    p0.well_formed(),
                    res0 == p0.results@,
                    self.project_list().len() == old(self).project_list().len(),
                    forall|j: int| 0 <= j < old(self).project_list().len() && j != sel ==> #[trigger] self.project_list()[j] == old(self).project_list()[j],
                    self.current().name == p0.name,
                    self.current().items == p0.items,
                    self.current().bitmasks == p0.bitmasks,
                    self.current().total_ratings == p0.total_ratings,
                    self.current().num_rated_items == p0.num_rated_items,
                    self.current().results@.len() == res0.len(),
                    forall|r: int| 0 <= r < res0.len() ==> (#[trigger] self.current().results@[r])@.len() == res0[r]@.len(),
                    forall|r: int, q: int|
                        0 <= r < res0.len() ==> #[trigger] mask_bit(self.current().results@[r]@, q)
                            == (mask_bit(res0[r]@, q) && !cleared(w, a as int, b as int, r, q)),
                decreases m - b,
            {
                let j = self.window[b];
                if b != a {
                    proof {
                        assert(w[a as int] != w[b as int]);
                        assert((i as int) < p0.len() && (j as int) < p0.len());
                        assert(res0[i as int]@.len() == crate::bitmask::bytes_for_bits(p0.len()));
                        if cleared(w, a as int, b as int, i as int, j as int) {
                            let (x, y) = choose|x: int, y: int| 0 <= x < w.len() && 0 <= y < w.len() && x != y && (x < a || (x == a && y < b)) && w[x] == i as int && w[y] == j as int;
                            assert(x == a && y == b);
                        }
                        assert(mask_bit(self.current().results@[i as int]@, j as int) == mask_bit(res0[i as int]@, j as int));
                        assert(self.current().results@[i as int]@.len() == res0[i as int]@.len());
                    }
                    let c = self.projects[sel].results[i as usize].check_bit(j);
                    assert(c == mask_bit(res0[i as int]@, j as int));
                    let step = EloStep {
                        player: i,
                        opponent: j,
                        score: if c { 1 } else { 0 },
                        player_updated: b > first,
                        opponent_updated: b < a,
                    };
                    proof {
                        let t = if b <= a { b as int } else { b - 1 };
                        assert(rows[a as int][t] == elo_step(w, res0, a as int, b as int));
                        assert(step == elo_step(w, res0, a as int, b as int));
                        assert(rows[a as int].take(t + 1) =~= rows[a as int].take(t).push(step));
                    }
                    steps.push(step);
                    let ghost before = self.current().results@;
                    self.projects[sel].results[i as usize].reset_bit(j);
                    proof {
                        assert forall|r: int, q: int| 0 <= r < res0.len() implies #[trigger] mask_bit(self.current().results@[r]@, q)
                            == (mask_bit(res0[r]@, q) && !cleared(w, a as int, b + 1, r, q)) by {
                            if cleared(w, a as int, b + 1, r, q) && !cleared(w, a as int, b as int, r, q) {
                                let (x, y) = choose|x: int, y: int| 0 <= x < w.len() && 0 <= y < w.len() && x != y && (x < a || (x == a && y < b + 1)) && w[x] == r && w[y] == q;
                                assert(x == a && y == b);
                            }
                            if r == i as int && q == j as int {
                                assert(cleared(w, a as int, b + 1, r, q));
                            } else if cleared(w, a as int, b as int, r, q) {
                                let (x, y) = choose|x: int, y: int| 0 <= x < w.len() && 0 <= y < w.len() && x != y && (x < a || (x == a && y < b)) && w[x] == r && w[y] == q;
                                assert(cleared(w, a as int, b + 1, r, q));
                            }
                            if r != i as int {
                                assert(self.current().results@[r] == before[r]);
                            }
                        }
                    }
                } else {
                    proof {
                        assert forall|r: int, q: int| 0 <= r < res0.len() implies #[trigger] mask_bit(self.current().results@[r]@, q)
                            == (mask_bit(res0[r]@, q) && !cleared(w, a as int, b + 1, r, q)) by {
                            if cleared(w, a as int, b + 1, r, q) {
                                let (x, y) = choose|x: int, y: int| 0 <= x < w.len() && 0 <= y < w.len() && x != y && (x < a || (x == a && y < b + 1)) && w[x] == r && w[y] == q;
                                assert(cleared(w, a as int, b as int, r, q));
                            }
                        }
                    }
                }
                b = b + 1;
            }
            proof {
                assert(rows[a as int].take(m - 1) =~= rows[a as int]);
                assert(rows.take(a + 1) =~= rows.take(a as int).push(rows[a as int]));
                assert forall|r: int, q: int| 0 <= r < res0.len() implies #[trigger] mask_bit(self.current().results@[r]@, q)
                    == (mask_bit(res0[r]@, q) && !cleared(w, a + 1, 0, r, q)) by {
                    if cleared(w, a + 1, 0, r, q) {
                        let (x, y) = choose|x: int, y: int| 0 <= x < w.len() && 0 <= y < w.len() && x != y && (x < a + 1 || (x == a + 1 && y < 0)) && w[x] == r && w[y] == q;
                        assert(cleared(w, a as int, m as int, r, q));
                    }
                    if cleared(w, a as int, m as int, r, q) {
                        let (x, y) = choose|x: int, y: int| 0 <= x < w.len() && 0 <= y < w.len() && x != y && (x < a || (x == a && y < m)) && w[x] == r && w[y] == q;
                        assert(cleared(w, a + 1, 0, r, q));
                    }
                }
            }
            a = a + 1;
        }
        proof {
            assert(rows.take(m as int) =~= rows);
            let p = self.current();
            assert forall|r: int, q: int| 0 <= r < p0.len() implies #[trigger] mask_bit(p.results@[r]@, q)
                == (mask_bit(res0[r]@, q) && !(w.contains(r as u16) && w.contains(q as u16) && r != q && 0 <= q)) by {
                if cleared(w, m as int, 0, r, q) {
                    let (x, y) = choose|x: int, y: int| 0 <= x < w.len() && 0 <= y < w.len() && x != y && (x < m || (x == m && y < 0)) && w[x] == r && w[y] == q;
                    assert(w[x] != w[y]);
                    assert(w.contains(r as u16));
                    assert(w.contains(q as u16));
                }
                if w.contains(r as u16) && w.contains(q as u16) && r != q && 0 <= q && mask_bit(res0[r]@, q) {
                    let x = choose|x: int| 0 <= x < w.len() && w[x] == r as u16;
                    let y = choose|y: int| 0 <= y < w.len() && w[y] == q as u16;
                    assert(w[x] as int == r);
                    assert((q as u16) as int == q) by {
                        assert(q < 8 * res0[r]@.len());
                    }
                    assert(cleared(w, m as int, 0, r, q));
                }
            }
            assert(p.well_formed());
        }
        steps
    }

    /// Whether item `x` has an item of the window that it was not compared with.
    fn has_open(&self, x: usize) -> (open: bool)
        requires
            self.consistent(),
            !self.has_no_projects(),
            x < self.current().len(),
        ensures
            open == has_open_pair(self.current(), self.current_window(), x as int),
    {
        let sel = self.selected_project;
        let ghost p = self.current();
        let ghost w = self.window@;
        let mut b: usize = 0;
        while b < self.window.len()
            invariant
                sel == self.selected(),
                sel < self.project_list().len(),
                p == self.current(),
                w == self.window@,
                p.well_formed(),
                in_range(p, w),
                x < p.len(),
                b <= w.len(),
                forall|y: int| 0 <= y < b ==> #[trigger] mask_bit(p.bitmasks@[x as int]@, w[y] as int),
            decreases w.len() - b,
        {
            let j = self.window[b];
            proof {
                assert((j as int) < p.len());
            }
            let c = self.projects[sel].bitmasks[x].check_bit(j);
            assert(c == mask_bit(p.bitmasks@[x as int]@, j as int));
            if !c {
                return true;
            }
            b = b + 1;
        }
        false
    }

    /// `x` when it has an item of the window it was not compared with; otherwise
    /// an item of the window that has one, tried in a random order.
    fn open_item(&self, x: usize) -> (y: usize)
        requires
            self.consistent(),
            !self.has_no_projects(),
            x < self.current().len(),
            !window_done(self.current(), self.current_window()),
        ensures
            y < self.current().len(),
            has_open_pair(self.current(), self.current_window(), y as int),
            has_open_pair(self.current(), self.current_window(), x as int) ==> y == x,
            !has_open_pair(self.current(), self.current_window(), x as int) ==> self.current_window().contains(y as u16),
    {
        if self.has_open(x) {
            return x;
        }
        let ghost p = self.current();
        let ghost w = self.window@;
        let order = shuffle(self.window.as_slice());
        proof {
            lemma_same_elements(order@, w);
        }
        let mut t: usize = 0;
        while t < order.len()
            invariant
                p == self.current(),
                w == self.window@,
                self.consistent(),
                !self.has_no_projects(),
                forall|z: u16| #[trigger] order@.contains(z) <==> w.contains(z),
                !has_open_pair(p, w, x as int),
                t <= order@.len(),
                forall|u: int| 0 <= u < t ==> !#[trigger] has_open_pair(p, w, order@[u] as int),
            decreases order@.len() - t,
        {
            let i = order[t];
            proof {
                assert(order@.contains(i));
                let b = choose|b: int| 0 <= b < w.len() && w[b] == i;
                assert((w[b] as int) < p.len());
            }
            if self.has_open(i as usize) {
                return i as usize;
            }
            t = t + 1;
        }
        proof {
            let (a, b) = choose|a: int, b: int| 0 <= a < w.len() && 0 <= b < w.len() && w[a] != w[b] && !mask_bit(p.bitmasks@[w[a] as int]@, w[b] as int);
            assert(has_open_pair(p, w, w[a] as int));
            assert(order@.contains(w[a]));
            let u = choose|u: int| 0 <= u < order@.len() && order@[u] == w[a];
            assert(!has_open_pair(p, w, order@[u] as int));
        }
        0
    }

    /// What `get_next` needs beyond consistency: while the window is open, the
    /// item that stays on (the first after a win of the first, the second
    /// otherwise) is an item of the selected project.
    pub open spec fn next_ready(&self) -> bool {
        !self.has_no_projects() && self.current_window().len() >= 2 && !window_done(
            self.current(),
            self.current_window(),
        ) ==> if self.first_won() {
            self.first_item() < self.current().len()
        } else {
            self.second_item() < self.current().len()
        }
    }

    /// Whether `get_next` may be called.
    pub fn is_next_ready(&self) -> (ready: bool)
        requires
            self.consistent(),
        ensures
            ready == self.next_ready(),
    {
        if self.no_projects || self.window.len() < 2 || self.check_window_done() {
            return true;
        }
        let n = self.projects[self.selected_project].items.len();
        if self.item_a_won {
            self.item_a < n
        } else {
            self.item_b < n
        }
    }

    /// The next pair to compare, as the names of its two items.
    ///
    /// With no projects: `NoProjects`; with fewer than two items in the window:
    /// `NotEnoughItems`; nothing changes then. When every two items of the
    /// window were compared, the window is finished: its rating updates are kept
    /// for `take_pending_ratings` and its results cleared, and a new window is
    /// drawn; when none can be (every item was compared with every item), the
    /// result is `None`. Otherwise the pair is two different items that were not
    /// compared: in a new window, its first item and another item of it; in the
    /// current window, the item that stays on (the first item after a win of the
    /// first, the second otherwise) if it still has an item of the window to meet,
    /// else an item of the window that has one, and against it an item of the
    /// window it was not compared with.
    #[verifier::spinoff_prover]
    #[verifier::rlimit(40)]
    pub fn get_next(&mut self) -> (next: Result<Option<(String, String)>, ProjectsError>)
        requires
            old(self).consistent(),
            old(self).next_ready(),
        ensures
            final(self).consistent(),
            old(self).has_no_projects() ==> next is Err && next->Err_0 is NoProjects && *final(self) == *old(self),
            !old(self).has_no_projects() && old(self).current_window().len() < 2 ==> next is Err
                && next->Err_0 is NotEnoughItems && *final(self) == *old(self),
            !old(self).has_no_projects() && old(self).current_window().len() >= 2 ==> {
                let p = old(self).current();
                let w = old(self).current_window();
                let done = window_done(p, w);
                let q = final(self).current();
                let a = final(self).first_item();
                let b = final(self).second_item();
                &&& next is Ok
                &&& final(self).selected() == old(self).selected()
                &&& final(self).has_no_projects() == old(self).has_no_projects()
                &&& final(self).size_of_window() == old(self).size_of_window()
                &&& final(self).first_won() == old(self).first_won()
                &&& final(self).project_list().len() == old(self).project_list().len()
                &&& forall|j: int| 0 <= j < old(self).project_list().len() && j != old(self).selected()
                    ==> #[trigger] final(self).project_list()[j] == old(self).project_list()[j]
                &&& q.name == p.name && q.items == p.items && q.bitmasks == p.bitmasks
                &&& q.total_ratings == p.total_ratings && q.num_rated_items == p.num_rated_items
                &&& done ==> final(self).pending() == Some(elo_schedule(w, p.results@))
                    && (forall|r: int, c: int| 0 <= r < p.len() ==> #[trigger] mask_bit(q.results@[r]@, c)
                        == (mask_bit(p.results@[r]@, c) && !(w.contains(r as u16) && w.contains(c as u16) && r != c && 0 <= c)))
                &&& !done ==> final(self).pending() is None && q.results == p.results
                    && final(self).current_window() == w && final(self).rated_in_window() == old(self).rated_in_window()
                &&& done && all_complete(p) ==> next == Ok::<Option<(String, String)>, ProjectsError>(None)
                    && final(self).current_window() == w && a == old(self).first_item()
                &&& !(done && all_complete(p)) ==> {
                    &&& next->Ok_0 == Some((q.items@[a].0, q.items@[b].0))
                    &&& 0 <= a < q.len() && 0 <= b < q.len() && a != b
                    &&& !mask_bit(q.bitmasks@[a]@, b)
                    &&& done ==> fresh_window(q, final(self).current_window(), final(self).size_of_window())
                        && final(self).current_window().contains(a as u16)
                        && final(self).current_window().contains(b as u16)
                        && final(self).rated_in_window() == 0
                    &&& !done && old(self).first_won() ==> final(self).current_window().contains(b as u16)
                        && (has_open_pair(p, w, old(self).first_item()) ==> a == old(self).first_item())
                        && (!has_open_pair(p, w, old(self).first_item()) ==> w.contains(a as u16))
                    &&& !done && !old(self).first_won() ==> final(self).current_window().contains(a as u16)
                        && (has_open_pair(p, w, old(self).second_item()) ==> b == old(self).second_item())
                        && (!has_open_pair(p, w, old(self).second_item()) ==> w.contains(b as u16))
                }
            },
    {
        if self.no_projects {
            return Err(ProjectsError::NoProjects);
        }
        if self.window.len() < 2 {
            return Err(ProjectsError::NotEnoughItems);
        }
        let sel = self.selected_project;
        let ghost p = self.current();
        let mut refresh = false;
        if self.check_window_done() {
            let steps = self.update_results_elos();
            self.pending_ratings = Some(steps);
            if !self.get_new_window() {
                return Ok(None);
            }
            refresh = true;
        } else {
            self.pending_ratings = None;
        }
        let ghost q = self.current();
        proof {
            assert(q.well_formed());
        }
        if refresh {
            proof {
                lemma_fresh_window_has_pair(q, self.window@, self.window_size as int);
                let w = self.window@;
                let x = choose|x: int| 0 <= x < w.len() && w[x] == self.item_a as u16;
                let y = if x == 0 { 1int } else { 0int };
                assert(w[y] != w[x]);
                assert(!mask_bit(q.bitmasks@[w[x] as int]@, w[y] as int));
                assert(!(w[y] == self.item_a || mask_bit(q.bitmasks@[self.item_a as int]@, w[y] as int)));
            }
            let o = self.choose_random_opponent(self.item_a);
            assert(o != usize::MAX);
            self.item_b = o;
        } else if self.item_a_won {
            let a = self.open_item(self.item_a);
            proof {
                lemma_open_pair_has_opponent(q, self.window@, a as int);
            }
            self.item_a = a;
            proof {
                assert(self.current() == q);
                assert(self.current_window() == self.window@);
            }
            let o = self.choose_random_opponent(a);
            assert(o != usize::MAX);
            self.item_b = o;
        } else {
            let b = self.open_item(self.item_b);
            proof {
                lemma_open_pair_has_opponent(q, self.window@, b as int);
            }
            self.item_b = b;
            proof {
                assert(self.current() == q);
                assert(self.current_window() == self.window@);
            }
            let o = self.choose_random_opponent(b);
            assert(o != usize::MAX);
            assert((o as int) < q.len());
            self.item_a = o;
            proof {
                assert(mask_bit(q.bitmasks@[o as int]@, b as int) == mask_bit(q.bitmasks@[b as int]@, o as int));
            }
        }
        let x = self.projects[sel].items[self.item_a].0.clone();
        let y = self.projects[sel].items[self.item_b].0.clone();
        Ok(Some((x, y)))
    }

    /// What `log_result` needs: the pair on show is a pair of items of the
    /// selected project, and neither counter is at its limit.
    pub open spec fn log_ready(&self) -> bool {
        &&& !self.has_no_projects()
        &&& self.first_item() < self.current().len()
        &&& self.second_item() < self.current().len()
        &&& self.current().num_rated_items < usize::MAX
        &&& self.rated_in_window() < usize::MAX
    }

    /// Whether `log_result` may be called.
    pub fn is_log_ready(&self) -> (ready: bool)
        requires
            self.consistent(),
        ensures
            ready == self.log_ready(),
    {
        if self.no_projects {
            return false;
        }
        let p = &self.projects[self.selected_project];
        self.item_a < p.items.len() && self.item_b < p.items.len() && p.num_rated_items < usize::MAX
            && self.window_rated_items < usize::MAX
    }

    /// Records the outcome of the pair on show: the two items are marked as
    /// compared, the winner (the first when `a_won`) as having beaten the other,
    /// and both counters of rated pairs go up by one.
    pub fn log_result(&mut self, a_won: bool)
        requires
            old(self).consistent(),
            old(self).log_ready(),
        ensures
            final(self).consistent(),
            final(self).next_ready(),
            final(self).first_won() == a_won,
            final(self).rated_in_window() == old(self).rated_in_window() + 1,
            final(self).selected() == old(self).selected(),
            final(self).has_no_projects() == old(self).has_no_projects(),
            final(self).current_window() == old(self).current_window(),
            final(self).first_item() == old(self).first_item(),
            final(self).second_item() == old(self).second_item(),
            final(self).size_of_window() == old(self).size_of_window(),
            final(self).pending() == old(self).pending(),
            final(self).project_list().len() == old(self).project_list().len(),
            forall|j: int| 0 <= j < old(self).project_list().len() && j != old(self).selected()
                ==> #[trigger] final(self).project_list()[j] == old(self).project_list()[j],
            logged(old(self).current(), old(self).first_item(), old(self).second_item(), a_won, final(self).current()),
            final(self).current().well_formed(),
            forall|r: int, c: int| 0 <= r < old(self).current().len() && #[trigger] old(self).current().compared(r, c)
                ==> final(self).current().compared(r, c),
    {
        let sel = self.selected_project;
        let a = self.item_a;
        let b = self.item_b;
        let ghost p = self.current();
        proof {
            assert(p.bitmasks@[a as int]@.len() == crate::bitmask::bytes_for_bits(p.len()));
            assert(p.bitmasks@[b as int]@.len() == crate::bitmask::bytes_for_bits(p.len()));
            crate::project::lemma_bytes_for_bits_covers(a as int, p.len());
            crate::project::lemma_bytes_for_bits_covers(b as int, p.len());
        }
        self.projects[sel].bitmasks[a].set_bit(b as u16);
        let ghost mid = self.current();
        self.projects[sel].bitmasks[b].set_bit(a as u16);
        self.projects[sel].num_rated_items = self.projects[sel].num_rated_items + 1;
        self.window_rated_items = self.window_rated_items + 1;
        self.item_a_won = a_won;
        if a_won {
            self.projects[sel].results[a].set_bit(b as u16);
        } else {
            self.projects[sel].results[b].set_bit(a as u16);
        }
        proof {
            let q = self.current();
            assert forall|r: int, c: int| 0 <= r < p.len() implies #[trigger] mask_bit(q.bitmasks@[r]@, c)
                == (mask_bit(p.bitmasks@[r]@, c) || (r == a && c == b) || (r == b && c == a)) by {
                if r != a {
                    assert(mid.bitmasks@[r] == p.bitmasks@[r]);
                }
                if r != b {
                    assert(q.bitmasks@[r] == mid.bitmasks@[r]);
                }
            }
            assert forall|r: int, c: int| 0 <= r < p.len() implies #[trigger] mask_bit(q.results@[r]@, c)
                == (mask_bit(p.results@[r]@, c) || (a_won && r == a && c == b) || (!a_won && r == b && c == a)) by {
                if a_won && r != a {
                    assert(q.results@[r] == p.results@[r]);
                }
                if !a_won && r != b {
                    assert(q.results@[r] == p.results@[r]);
                }
            }
            assert forall|r: int| 0 <= r < q.len() implies (#[trigger] q.bitmasks@[r])@.len() == crate::bitmask::bytes_for_bits(q.len()) by {
                if r != a {
                    assert(mid.bitmasks@[r] == p.bitmasks@[r]);
                }
                if r != b {
                    assert(q.bitmasks@[r] == mid.bitmasks@[r]);
                }
            }
            assert forall|r: int| 0 <= r < q.len() implies (#[trigger] q.results@[r])@.len() == crate::bitmask::bytes_for_bits(q.len()) by {
                if !(a_won && r == a) && !(!a_won && r == b) {
                    assert(q.results@[r] == p.results@[r]);
                }
            }
            assert forall|r: int, c: int| 0 <= r < q.len() && 0 <= c < q.len() implies #[trigger] mask_bit(q.bitmasks@[r]@, c) == mask_bit(q.bitmasks@[c]@, r) by {
                assert(mask_bit(p.bitmasks@[r]@, c) == mask_bit(p.bitmasks@[c]@, r));
            }
            assert(q.well_formed());
        }
    }

    /// Gets the selected project ready to compare: draws a new window; when
    /// every item was compared with every item, forgets all comparisons first and
    /// then draws one. With at least two items in the window, the first item is
    /// picked from it at random. `NoProjects` when there are no projects.
    pub fn init(&mut self) -> (r: Result<(), ProjectsError>)
        requires
            old(self).consistent(),
        ensures
            final(self).consistent(),
            old(self).has_no_projects() ==> r is Err && r->Err_0 is NoProjects && *final(self) == *old(self),
            !old(self).has_no_projects() ==> {
                let p = old(self).current();
                let q = final(self).current();
                &&& r is Ok
                &&& final(self).selected() == old(self).selected()
                &&& final(self).has_no_projects() == old(self).has_no_projects()
                &&& final(self).size_of_window() == old(self).size_of_window()
                &&& final(self).first_won() == old(self).first_won()
                &&& final(self).second_item() == old(self).second_item()
                &&& final(self).pending() == old(self).pending()
                &&& final(self).project_list().len() == old(self).project_list().len()
                &&& forall|j: int| 0 <= j < old(self).project_list().len() && j != old(self).selected()
                    ==> #[trigger] final(self).project_list()[j] == old(self).project_list()[j]
                &&& init_effect(p, old(self).current_window(), old(self).rated_in_window(), *final(self))
                &&& q.name == p.name
                &&& q.items@ == p.items@
            },
    {
        if self.no_projects {
            return Err(ProjectsError::NoProjects);
        }
        let sel = self.selected_project;
        if !self.get_new_window() {
            let ghost before = *self;
            self.projects[sel].reset_bitmasks_and_results();
            proof {
                assert(in_range(self.current(), self.current_window()));
            }
            let _ = self.get_new_window();
        }
        if self.window.len() >= 2 {
            let pick = choose_from(&self.window);
            match pick {
                Some(x) => {
                    proof {
                        let t = choose|t: int| 0 <= t < self.window@.len() && self.window@[t] == x;
                        assert((self.window@[t] as int) < self.current().len());
                    }
                    self.item_a = x as usize;
                },
                None => {},
            }
        }
        Ok(())
    }

    /// The rating updates of the last finished window, handed over once.
    pub fn take_pending_ratings(&mut self) -> (steps: Option<Vec<EloStep>>)
        ensures
            final(self).pending() is None,
            match steps {
                Some(v) => old(self).pending() == Some(v@),
                None => old(self).pending() is None,
            },
            final(self).same_frame_except_pending(old(self)),
    {
        let steps = self.pending_ratings.take();
        steps
    }

    /// Sets the rating (an `f32` bit pattern) of item `item` of the selected project.
    pub fn set_rating(&mut self, item: usize, rating: u32)
        requires
            old(self).selection_valid(),
            !old(self).has_no_projects(),
            item < old(self).current().len(),
        ensures
            final(self).selection_valid(),
            old(self).projects_sound() ==> final(self).projects_sound(),
            final(self).current().well_formed() == old(self).current().well_formed(),
            final(self).consistent() == old(self).consistent(),
            final(self).same_frame_except_projects(old(self)),
            final(self).project_list().len() == old(self).project_list().len(),
            forall|j: int| 0 <= j < old(self).project_list().len() && j != old(self).selected()
                ==> #[trigger] final(self).project_list()[j] == old(self).project_list()[j],
            final(self).current().items@ == old(self).current().items@.update(
                item as int,
                (old(self).current().items@[item as int].0, rating),
            ),
            final(self).current().name == old(self).current().name,
            final(self).current().bitmasks == old(self).current().bitmasks,
            final(self).current().results == old(self).current().results,
            final(self).current().total_ratings == old(self).current().total_ratings,
            final(self).current().num_rated_items == old(self).current().num_rated_items,
    {
        let sel = self.selected_project;
        let ghost before = *self;
        self.projects[sel].items[item].1 = rating;
        proof {
            assert(self.current().len() == before.current().len());
            assert(self.current().bitmasks == before.current().bitmasks);
            assert(self.current().results == before.current().results);
            assert(self.current().well_formed() == before.current().well_formed());
            assert forall|j: int| 0 <= j < self.project_list().len() && before.projects_sound() implies (#[trigger] self.project_list()[j]).well_formed() by {
                if j != sel {
                    assert(self.project_list()[j] == before.project_list()[j]);
                }
            }
        }
    }

    /// A ranker with no projects and a window of `DEFUALT_WINDOW_SIZE` items.
    pub fn new() -> (r: Ranker)
        ensures
            r.has_no_projects(),
            r.project_list().len() == 0,
            r.selected() == 0,
            r.size_of_window() == DEFUALT_WINDOW_SIZE,
            r.current_window().len() == 0,
            r.first_item() == 0,
            r.second_item() == 0,
            r.first_won(),
            r.pending() is None,
            r.rated_in_window() == 0,
            r.consistent(),
    {
        Ranker {
            selected_project: 0,
            projects: Vec::new(),
            no_projects: true,
            window_size: DEFUALT_WINDOW_SIZE,
            window: Vec::new(),
            item_a: 0,
            item_b: 0,
            item_a_won: true,
            pending_ratings: None,
            window_rated_items: 0,
        }
    }

    /// The same ranker with windows of `custom_window_size` items.
    pub fn with_window_size(self, custom_window_size: usize) -> (r: Ranker)
        ensures
            r.size_of_window() == custom_window_size,
            r.selected() == self.selected(),
            r.project_list() == self.project_list(),
            r.has_no_projects() == self.has_no_projects(),
            r.current_window() == self.current_window(),
            r.first_item() == self.first_item(),
            r.second_item() == self.second_item(),
            r.first_won() == self.first_won(),
            r.pending() == self.pending(),
            r.rated_in_window() == self.rated_in_window(),
            r.consistent() == self.consistent(),
    {
        let mut r = self;
        r.window_size = custom_window_size;
        r
    }

    /// The same ranker holding `projects`, ordered by name; when there are any,
    /// the ranker no longer counts as having no projects.
    pub fn load_projects_from(self, projects: Vec<Project>) -> (r: Ranker)
        ensures
            r.project_list().to_multiset() == projects@.to_multiset(),
            sorted_by_name(r.project_list()),
            r.has_no_projects() == (self.has_no_projects() && projects@.len() == 0),
            r.selected() == self.selected(),
            r.size_of_window() == self.size_of_window(),
            r.current_window() == self.current_window(),
            r.first_item() == self.first_item(),
            r.second_item() == self.second_item(),
            r.first_won() == self.first_won(),
            r.pending() == self.pending(),
            r.rated_in_window() == self.rated_in_window(),
            (forall|j: int| 0 <= j < projects@.len() ==> (#[trigger] projects@[j]).well_formed())
                && self.selected() == 0 && self.current_window().len() == 0 && (self.has_no_projects()
                || projects@.len() > 0) ==> r.consistent(),
    {
        let ghost given = projects@;
        let mut r = self;
        r.projects = sort_by_name(projects);
        if r.projects.len() > 0 {
            r.no_projects = false;
        }
        proof {
            lemma_same_elements(r.projects@, given);
            assert forall|j: int| 0 <= j < r.projects@.len() && (forall|t: int| 0 <= t < given.len() ==> (#[trigger] given[t]).well_formed())
                implies (#[trigger] r.projects@[j]).well_formed() by {
                assert(r.projects@.contains(r.projects@[j]));
                assert(given.contains(r.projects@[j]));
            }
        }
        r
    }

    /// The selected project; `NoProjects` when there are none.
    pub fn get_selected_project(&self) -> (r: Result<&Project, ProjectsError>)
        requires
            self.selection_valid(),
        ensures
            self.has_no_projects() ==> r is Err && r->Err_0 is NoProjects,
            !self.has_no_projects() ==> r is Ok && *r->Ok_0 == self.current(),
    {
        if self.no_projects {
            Err(ProjectsError::NoProjects)
        } else {
            Ok(&self.projects[self.selected_project])
        }
    }

    /// Project `index`; `NotEnoughItems` when there is no such project.
    pub fn get_project_by_index(&self, index: usize) -> (r: Result<&Project, ProjectsError>)
        ensures
            index >= self.project_list().len() ==> r is Err && r->Err_0 is NotEnoughItems,
            index < self.project_list().len() ==> r is Ok && *r->Ok_0 == self.project_list()[index as int],
    {
        if index >= self.projects.len() {
            Err(ProjectsError::NotEnoughItems)
        } else {
            Ok(&self.projects[index])
        }
    }

    /// The selected project.
    pub fn get_project(&self) -> (p: &Project)
        requires
            self.selection_valid(),
            !self.has_no_projects(),
        ensures
            *p == self.current(),
    {
        &self.projects[self.selected_project]
    }

    /// The number of unordered pairs of items of the selected project.
    pub fn get_total_ratings(&self) -> (total: usize)
        requires
            self.selection_valid(),
            !self.has_no_projects(),
            self.current().len() * self.current().len() <= usize::MAX,
        ensures
            total == crate::project::pairs(self.current().len()),
    {
        let n = self.projects[self.selected_project].items.len();
        proof {
            assert(n * n >= n) by (nonlinear_arith);
        }
        (n * n - n) / 2
    }

    /// The number of projects.
    pub fn get_num_projects(&self) -> (n: usize)
        ensures
            n == self.project_list().len(),
    {
        self.projects.len()
    }

    /// The names of the projects, in order.
    pub fn get_project_names(&self) -> (names: Vec<String>)
        ensures
            names@.len() == self.project_list().len(),
            forall|j: int| 0 <= j < names@.len() ==> #[trigger] names@[j] == self.project_list()[j].name,
    {
        let mut names: Vec<String> = Vec::new();
        let mut j: usize = 0;
        while j < self.projects.len()
            invariant
                j <= self.projects@.len(),
                names@.len() == j,
                forall|t: int| 0 <= t < j ==> #[trigger] names@[t] == self.projects@[t].name,
            decreases self.projects@.len() - j,
        {
            names.push(self.projects[j].name.clone());
            j = j + 1;
        }
        names
    }

    /// The position of the first project called `name`.
    pub fn try_find_project(&self, name: &str) -> (found: Option<usize>)
        ensures
            match found {
                Some(i) => first_named(self.project_list(), name@, i as int),
                None => !named(self.project_list(), name@),
            },
    {
        let target = String::from_str(name);
        find_named(&self.projects, &target)
    }

    /// Whether synchronising the selected project with `items` leaves at most
    /// 2^16 - 1 items.
    pub fn sync_fits(&self, items: &Vec<String>) -> (fits: bool)
        requires
            self.selection_valid(),
            !self.has_no_projects(),
        ensures
            fits == (synced_len(self.current().items@, items@) <= u16::MAX),
    {
        self.projects[self.selected_project].sync_fits(items)
    }

    /// Brings the selected project in line with `items`, the names found now
    /// (see `Project::initialize`), then, when there is no window, gets it ready
    /// (see `init`). `Ok(false)` when the counters of the project could not be
    /// recomputed (its set comparison bits number more than 2^16 - 1); the
    /// project is not got ready then.
    pub fn sync_project(&mut self, items: Vec<String>) -> (r: Result<bool, ProjectsError>)
        requires
            old(self).consistent(),
            !old(self).has_no_projects(),
            synced_len(old(self).current().items@, items@) <= u16::MAX,
        ensures
            final(self).selection_valid(),
            final(self).current().well_formed(),
            old(self).projects_sound() ==> final(self).projects_sound(),
            final(self).selected() == old(self).selected(),
            final(self).has_no_projects() == old(self).has_no_projects(),
            final(self).size_of_window() == old(self).size_of_window(),
            final(self).project_list().len() == old(self).project_list().len(),
            forall|j: int| 0 <= j < old(self).project_list().len() && j != old(self).selected()
                ==> #[trigger] final(self).project_list()[j] == old(self).project_list()[j],
            r is Ok,
            r == Ok::<bool, ProjectsError>(false) ==> synced(old(self).current(), items@, final(self).current())
                && final(self).current_window() == old(self).current_window(),
            r == Ok::<bool, ProjectsError>(true) ==> {
                if old(self).current_window().len() == 0 {
                    &&& final(self).consistent()
                    &&& exists|mid: Project| #![trigger synced(old(self).current(), items@, mid)]
                        synced(old(self).current(), items@, mid) && mid.well_formed()
                        && mid.counts_agree() && init_effect(mid, old(self).current_window(), old(self).rated_in_window(), *final(self))
                } else {
                    &&& synced(old(self).current(), items@, final(self).current())
                    &&& final(self).current().counts_agree()
                    &&& final(self).current_window() == old(self).current_window()
                }
            },
    {
        let sel = self.selected_project;
        let ghost before = *self;
        proof {
            if self.current().len() == 0 {
                crate::project::lemma_added_names_all(self.current().items@, items@);
            }
        }
        let counted = self.projects[sel].initialize(items);
        proof {
            assert forall|j: int| 0 <= j < self.project_list().len() && before.projects_sound() implies (#[trigger] self.project_list()[j]).well_formed() by {
                if j != sel {
                    assert(self.project_list()[j] == before.project_list()[j]);
                }
            }
        }
        if !counted {
            return Ok(false);
        }
        if self.window.len() == 0 {
            let ghost mid = self.current();
            let _ = self.init();
        }
        Ok(true)
    }

    /// Selects project `project` and gets it ready (see `init`) with an empty window.
    pub fn select_project(&mut self, project: usize) -> (r: Result<(), ProjectsError>)
        requires
            project < old(self).project_list().len(),
            old(self).project_list()[project as int].well_formed(),
        ensures
            final(self).consistent(),
            final(self).project_list().len() == old(self).project_list().len(),
            forall|j: int| 0 <= j < old(self).project_list().len() && j != project
                ==> #[trigger] final(self).project_list()[j] == old(self).project_list()[j],
            final(self).has_no_projects() == old(self).has_no_projects(),
            final(self).selected() == project,
            old(self).has_no_projects() ==> r is Err && r->Err_0 is NoProjects
                && final(self).project_list() == old(self).project_list() && final(self).current_window().len() == 0,
            !old(self).has_no_projects() ==> r is Ok
                && init_effect(old(self).project_list()[project as int], Seq::empty(), old(self).rated_in_window(), *final(self)),
    {
        self.selected_project = project;
        self.window = Vec::new();
        self.init()
    }

    /// Selects the first project called `name`, if any: `Ok(true)` then, `Ok(false)` otherwise.
    pub fn try_select_project_by_name(&mut self, name: &str) -> (r: Result<bool, ProjectsError>)
        requires
            forall|i: int| 0 <= i < old(self).project_list().len() && (#[trigger] old(self).project_list()[i]).name@ == name@
                ==> old(self).project_list()[i].well_formed(),
        ensures
            !named(old(self).project_list(), name@) ==> r == Ok::<bool, ProjectsError>(false) && *final(self) == *old(self),
            named(old(self).project_list(), name@) ==> final(self).consistent() && exists|i: int| #![trigger first_named(old(self).project_list(), name@, i)]
                first_named(old(self).project_list(), name@, i) && final(self).selected() == i && (old(self).has_no_projects()
                ==> r is Err && r->Err_0 is NoProjects) && (!old(self).has_no_projects() ==> r == Ok::<bool, ProjectsError>(true)
                && init_effect(old(self).project_list()[i], Seq::empty(), old(self).rated_in_window(), *final(self))),
    {
        match self.try_find_project(name) {
            Some(i) => {
                let r = self.select_project(i);
                match r {
                    Ok(()) => Ok(true),
                    Err(e) => Err(e),
                }
            },
            None => Ok(false),
        }
    }

    /// Adds `project` and selects it with an empty window; `ProjectExists` when
    /// a project of that name is there already.
    pub fn create_project(&mut self, project: Project) -> (r: Result<(), ProjectsError>)
        requires
            project.well_formed(),
        ensures
            named(old(self).project_list(), project.name@) ==> r is Err && r->Err_0 is ProjectExists && *final(self) == *old(self),
            !named(old(self).project_list(), project.name@) ==> {
                &&& r is Ok
                &&& final(self).project_list() == old(self).project_list().push(project)
                &&& final(self).selected() == old(self).project_list().len()
                &&& final(self).current_window().len() == 0
                &&& !final(self).has_no_projects()
                &&& final(self).consistent()
            },
    {
        if find_named(&self.projects, &project.name).is_some() {
            return Err(ProjectsError::ProjectExists);
        }
        self.projects.push(project);
        self.selected_project = self.projects.len() - 1;
        self.window = Vec::new();
        self.no_projects = false;
        Ok(())
    }

    /// Answers a request to rename project `name` to `new_name`: `Ok` when the
    /// names are equal, `ProjectExists` when a project called `name` exists,
    /// `NoProjects` otherwise. The projects never change.
    pub fn rename_project(&mut self, name: &str, new_name: &str) -> (r: Result<(), ProjectsError>)
        ensures
            *final(self) == *old(self),
            name@ == new_name@ ==> r is Ok,
            name@ != new_name@ && named(old(self).project_list(), name@) ==> r is Err && r->Err_0 is ProjectExists,
            name@ != new_name@ && !named(old(self).project_list(), name@) ==> r is Err && r->Err_0 is NoProjects,
    {
        let a = String::from_str(name);
        let b = String::from_str(new_name);
        if a == b {
            return Ok(());
        }
        if find_named(&self.projects, &a).is_some() {
            return Err(ProjectsError::ProjectExists);
        }
        Err(ProjectsError::NoProjects)
    }

    /// Removes project `project`. With none left, the ranker counts as having no
    /// projects; when the removed project was selected and was the last one, the
    /// one before it is selected (see `select_project`); otherwise the selection
    /// index and the window stay as they were.
    pub fn delete_project(&mut self, project: usize) -> (r: Result<(), ProjectsError>)
        requires
            project < old(self).project_list().len(),
            old(self).selected() == project && project == old(self).project_list().len() - 1 && project > 0
                ==> old(self).project_list()[project - 1].well_formed(),
        ensures
            final(self).project_list().len() == old(self).project_list().len() - 1,
            forall|j: int| 0 <= j < final(self).project_list().len() && !(j == old(self).selected() - 1
                && old(self).selected() == project && project == old(self).project_list().len() - 1)
                ==> #[trigger] final(self).project_list()[j] == old(self).project_list().remove(project as int)[j],
            old(self).projects_sound() ==> forall|j: int| 0 <= j < final(self).project_list().len() ==> (#[trigger] final(self).project_list()[j]).well_formed(),
            old(self).project_list().len() == 1 ==> r is Ok && final(self).has_no_projects()
                && final(self).selected() == old(self).selected() && final(self).current_window() == old(self).current_window(),
            old(self).project_list().len() > 1 && old(self).selected() == project && project == old(self).project_list().len() - 1 ==> {
                &&& final(self).selected() == project - 1
                &&& final(self).consistent()
                &&& final(self).has_no_projects() == old(self).has_no_projects()
                &&& old(self).has_no_projects() ==> r is Err && r->Err_0 is NoProjects
                &&& !old(self).has_no_projects() ==> r is Ok && init_effect(old(self).project_list()[project - 1], Seq::empty(), old(self).rated_in_window(), *final(self))
            },
            old(self).project_list().len() > 1 && !(old(self).selected() == project && project == old(self).project_list().len() - 1) ==> {
                &&& r is Ok
                &&& final(self).project_list() == old(self).project_list().remove(project as int)
                &&& final(self).selected() == old(self).selected()
                &&& final(self).has_no_projects() == old(self).has_no_projects()
                &&& final(self).current_window() == old(self).current_window()
            },
    {
        let ghost before = self.projects@;
        self.projects.remove(project);
        proof {
            assert forall|j: int| 0 <= j < self.projects@.len() && old(self).projects_sound() implies (#[trigger] self.projects@[j]).well_formed() by {
                assert(self.projects@[j] == before[if j < project { j } else { j + 1 }]);
            }
            if self.selected_project == project && project == self.projects@.len() && project > 0 {
                assert(self.projects@[project - 1] == before[project - 1]);
            }
        }
        if self.projects.len() == 0 {
            self.no_projects = true;
            Ok(())
        } else if self.selected_project == project && self.selected_project == self.projects.len() {
            let s = self.selected_project - 1;
            self.select_project(s)
        } else {
            Ok(())
        }
    }

    /// Removes the first project called `name`, if any (see `delete_project`):
    /// `Ok(true)` then, `Ok(false)` otherwise.
    pub fn try_delete_project_by_name(&mut self, name: &str) -> (r: Result<bool, ProjectsError>)
        requires
            forall|i: int| #[trigger] first_named(old(self).project_list(), name@, i) && old(self).selected() == i
                && i == old(self).project_list().len() - 1 && i > 0 ==> old(self).project_list()[i - 1].well_formed(),
        ensures
            !named(old(self).project_list(), name@) ==> r == Ok::<bool, ProjectsError>(false) && *final(self) == *old(self),
            named(old(self).project_list(), name@) ==> final(self).project_list().len() == old(self).project_list().len() - 1
                && exists|i: int| #![trigger first_named(old(self).project_list(), name@, i)] first_named(old(self).project_list(), name@, i)
                && (forall|j: int| 0 <= j < final(self).project_list().len() && !(j == old(self).selected() - 1
                && old(self).selected() == i && i == old(self).project_list().len() - 1)
                ==> #[trigger] final(self).project_list()[j] == old(self).project_list().remove(i)[j]),
            old(self).projects_sound() ==> forall|j: int| 0 <= j < final(self).project_list().len() ==> (#[trigger] final(self).project_list()[j]).well_formed(),
    {
        match self.try_find_project(name) {
            Some(i) => {
                let r = self.delete_project(i);
                match r {
                    Ok(()) => Ok(true),
                    Err(e) => Err(e),
                }
            },
            None => Ok(false),
        }
    }

    /// Whether `name` may be given to a project: it is not empty and no other
    /// project has it. `edited` is the position of the project being renamed,
    /// whose own name stays acceptable; `None` when a project is being added.
    pub fn accepts_project_name(&self, name: &str, edited: Option<usize>) -> (ok: bool)
        requires
            edited matches Some(i) ==> i < self.project_list().len(),
        ensures
            ok == (name@.len() > 0 && !match edited {
                None => named(self.project_list(), name@),
                Some(i) => name@ != self.project_list()[i as int].name@ && named(self.project_list(), name@),
            }),
    {
        let target = String::from_str(name);
        if name.unicode_len() == 0 {
            return false;
        }
        let taken = find_named(&self.projects, &target).is_some();
        match edited {
            None => !taken,
            Some(i) => !(self.projects[i].name != target && taken),
        }
    }

    /// Whether the selected project exists and the window holds distinct items of it.
    pub fn selection_fits(&self) -> (fits: bool)
        ensures
            fits == (!self.has_no_projects() ==> 0 <= self.selected() < self.project_list().len() && self.window_fits()),
    {
        if self.no_projects {
            return true;
        }
        if self.selected_project >= self.projects.len() {
            return false;
        }
        let n = self.projects[self.selected_project].items.len();
        let mut t: usize = 0;
        while t < self.window.len()
            invariant
                !self.has_no_projects(),
                0 <= self.selected() < self.project_list().len(),
                n == self.current().len(),
                t <= self.window@.len(),
                forall|x: int| 0 <= x < t ==> (#[trigger] self.window@[x] as int) < n,
                forall|x: int, y: int| 0 <= x < t && 0 <= y < t && x != y ==> self.window@[x] != self.window@[y],
            decreases self.window@.len() - t,
        {
            if self.window[t] as usize >= n {
                return false;
            }
            let mut u: usize = 0;
            while u < t
                invariant
                    !self.has_no_projects(),
                    0 <= self.selected() < self.project_list().len(),
                    t < self.window@.len(),
                    u <= t,
                    forall|y: int| 0 <= y < u ==> self.window@[y] != self.window@[t as int],
                decreases t - u,
            {
                if self.window[u] == self.window[t] {
                    proof {
                        assert(!self.window@.no_duplicates());
                    }
                    return false;
                }
                u = u + 1;
            }
            t = t + 1;
        }
        true
    }

    /// The names of the items in the window, in window order.
    pub fn get_window_items(&self) -> (names: Vec<String>)
        requires
            self.selection_valid(),
            self.has_no_projects() ==> self.current_window().len() == 0,
            !self.has_no_projects() ==> in_range(self.current(), self.current_window()),
        ensures
            names@.len() == self.current_window().len(),
            forall|t: int| 0 <= t < names@.len() ==> #[trigger] names@[t] == self.current().items@[self.current_window()[t] as int].0,
    {
        let mut names: Vec<String> = Vec::new();
        if self.no_projects {
            return names;
        }
        let sel = self.selected_project;
        let mut t: usize = 0;
        while t < self.window.len()
            invariant
                sel == self.selected(),
                self.selection_valid(),
                in_range(self.current(), self.current_window()),
                !self.has_no_projects(),
                t <= self.window@.len(),
                names@.len() == t,
                forall|x: int| 0 <= x < t ==> #[trigger] names@[x] == self.current().items@[self.current_window()[x] as int].0,
            decreases self.window@.len() - t,
        {
            let i = self.window[t] as usize;
            names.push(self.projects[sel].items[i].0.clone());
            t = t + 1;
        }
        names
    }

    /// How many other items item `item` of the selected project was compared with.
    pub fn get_item_num_played_games(&self, item: usize) -> (games: usize)
        requires
            self.selection_valid(),
            !self.has_no_projects(),
            item < self.current().bitmasks@.len(),
            1 <= ones(self.current().bitmasks@[item as int]@) <= u16::MAX,
        ensures
            games == ones(self.current().bitmasks@[item as int]@) - 1,
    {
        self.projects[self.selected_project].bitmasks[item].get_num_ones() as usize - 1
    }

    /// The position of the first item of the selected project called `item`.
    pub fn get_item_index(&self, item: &String) -> (index: usize)
        requires
            self.selection_valid(),
            !self.has_no_projects(),
            exists|p: int| 0 <= p < self.current().len() && (#[trigger] self.current().items@[p]).0@ == item@,
        ensures
            index < self.current().len(),
            self.current().items@[index as int].0@ == item@,
            forall|p: int| 0 <= p < index ==> (#[trigger] self.current().items@[p]).0@ != item@,
    {
        let sel = self.selected_project;
        let mut p: usize = 0;
        while p < self.projects[sel].items.len()
            invariant
                sel == self.selected(),
                self.selection_valid(),
                !self.has_no_projects(),
                p <= self.current().len(),
                exists|q: int| 0 <= q < self.current().len() && (#[trigger] self.current().items@[q]).0@ == item@,
                forall|q: int| 0 <= q < p ==> (#[trigger] self.current().items@[q]).0@ != item@,
            decreases self.current().len() - p,
        {
            if self.projects[sel].items[p].0 == *item {
                return p;
            }
            p = p + 1;
        }
        proof {
            let q = choose|q: int| 0 <= q < self.current().len() && (#[trigger] self.current().items@[q]).0@ == item@;
        }
        0
    }

    /// The number of pairs in a full window: `1 + 2 + ... + (window_size - 1)`.
    pub fn get_num_ratings_in_window(&self) -> (pairs: usize)
        requires
            sum_below(self.size_of_window()) <= usize::MAX,
        ensures
            pairs == sum_below(self.size_of_window()),
    {
        let ws = self.window_size;
        let mut acc: usize = 0;
        let mut k: usize = 1;
        if ws == 0 {
            return 0;
        }
        while k < ws
            invariant
                1 <= k <= ws,
                ws == self.size_of_window(),
                acc == sum_below(k as int),
                sum_below(ws as int) <= usize::MAX,
            decreases ws - k,
        {
            proof {
                lemma_sum_below_monotonic(k + 1, ws as int);
            }
            acc = acc + k;
            k = k + 1;
        }
        acc
    }

    /// Whether the window is complete: every two of its items were compared.
    fn check_window_done(&self) -> (done: bool)
        requires
            self.consistent(),
            !self.has_no_projects(),
        ensures
            done == window_done(self.current(), self.current_window()),
    {
        let sel = self.selected_project;
        let ghost p = self.current();
        let ghost w = self.window@;
        let mut a: usize = 0;
        while a < self.window.len()
            invariant
                sel == self.selected(),
                sel < self.project_list().len(),
                p == self.current(),
                w == self.window@,
                p.well_formed(),
                in_range(p, w),
                a <= w.len(),
                forall|x: int, y: int|
                    0 <= x < a && 0 <= y < w.len() && w[x] != w[y] ==> #[trigger] mask_bit(
                        p.bitmasks@[w[x] as int]@,
                        w[y] as int,
                    ),
            decreases w.len() - a,
        {
            let i = self.window[a];
            let mut b: usize = 0;
            while b < self.window.len()
                invariant
                    sel == self.selected(),
                    sel < self.project_list().len(),
                    p == self.current(),
                    w == self.window@,
                    p.well_formed(),
                    in_range(p, w),
                    a < w.len(),
                    i == w[a as int],
                    b <= w.len(),
                    forall|x: int, y: int|
                        0 <= x < a && 0 <= y < w.len() && w[x] != w[y] ==> #[trigger] mask_bit(
                            p.bitmasks@[w[x] as int]@,
                            w[y] as int,
                        ),
                    forall|y: int|
                        0 <= y < b && w[a as int] != w[y] ==> #[trigger] mask_bit(
                            p.bitmasks@[w[a as int] as int]@,
                            w[y] as int,
                        ),
                decreases w.len() - b,
            {
                let j = self.window[b];
                if i != j {
                    proof {
                        assert((i as int) < p.len() && (j as int) < p.len());
                        assert(p.bitmasks@[i as int]@.len() == crate::bitmask::bytes_for_bits(p.len()));
                    }
                    let c = self.projects[sel].bitmasks[i as usize].check_bit(j);
                    assert(c == mask_bit(p.bitmasks@[i as int]@, j as int));
                    if !c {
                        return false;
                    }
                }
                b = b + 1;
            }
            a = a + 1;
        }
        true
    }

    /// An item of the window, other than `item`, that `item` was not compared
    /// with, picked at random; `usize::MAX` when there is none.
    fn choose_random_opponent(&self, item: usize) -> (opponent: usize)
        requires
            self.consistent(),
            !self.has_no_projects(),
            item < self.current().len(),
        ensures
            opponent == usize::MAX <==> forall|b: int|
                0 <= b < self.current_window().len() ==> self.current_window()[b] == item
                    || #[trigger] mask_bit(
                    self.current().bitmasks@[item as int]@,
                    self.current_window()[b] as int,
                ),
            opponent != usize::MAX ==> {
                &&& self.current_window().contains(opponent as u16)
                &&& opponent < self.current().len()
                &&& opponent != item
                &&& !mask_bit(self.current().bitmasks@[item as int]@, opponent as int)
            },
    {
        let sel = self.selected_project;
        let ghost p = self.current();
        let ghost w = self.window@;
        let order = shuffle(self.window.as_slice());
        proof {
            lemma_same_elements(order@, w);
        }
        let mut t: usize = 0;
        while t < order.len()
            invariant
                sel == self.selected(),
                sel < self.project_list().len(),
                p == self.current(),
                w == self.window@,
                p.well_formed(),
                in_range(p, w),
                item < p.len(),
                order@.to_multiset() == w.to_multiset(),
                forall|x: u16| #[trigger] order@.contains(x) <==> w.contains(x),
                t <= order@.len(),
                forall|x: int|
                    0 <= x < t ==> order@[x] == item || #[trigger] mask_bit(
                        p.bitmasks@[item as int]@,
                        order@[x] as int,
                    ),
            decreases order@.len() - t,
        {
            let o = order[t];
            proof {
                assert(order@.contains(o));
                assert(w.contains(o));
            }
            if o != item as u16 {
                proof {
                    let x = choose|x: int| 0 <= x < w.len() && w[x] == o;
                    assert((w[x] as int) < p.len());
                    assert(p.bitmasks@[item as int]@.len() == crate::bitmask::bytes_for_bits(p.len()));
                }
                let c = self.projects[sel].bitmasks[item].check_bit(o);
                assert(c == mask_bit(p.bitmasks@[item as int]@, o as int));
                if !c {
                    proof {
                        let x = choose|x: int| 0 <= x < w.len() && w[x] == o;
                        assert(w[x] as int != item as int);
                        assert(!mask_bit(p.bitmasks@[item as int]@, w[x] as int));
                        assert(self.current_window()[x] == w[x]);
                        assert(!(self.current_window()[x] == item || mask_bit(
                            self.current().bitmasks@[item as int]@,
                            self.current_window()[x] as int,
                        )));
                        assert((o as usize) < usize::MAX);
                    }
                    return o as usize;
                }
            }
            t = t + 1;
        }
        proof {
            assert forall|b: int| 0 <= b < w.len() implies w[b] == item || #[trigger] mask_bit(
                p.bitmasks@[item as int]@,
                w[b] as int,
            ) by {
                assert(w.contains(w[b]));
                assert(order@.contains(w[b]));
                let x = choose|x: int| 0 <= x < order@.len() && order@[x] == w[b];
            }
        }
        usize::MAX
    }
}

} // verus!
