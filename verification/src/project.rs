//! A project: its items, each with a rating, and two square bit matrices over
//! them: which pairs were compared, and which comparisons of the current window
//! each item won.
use vstd::prelude::*;

use crate::bitmask::{bytes_for_bits, mask_bit, ones, BitMask};

verus! {

/// The rating of an item that was never rated: the bit pattern of an `f32` NaN.
/// Ratings are carried as `f32` bit patterns; the arithmetic on them is done
/// outside this crate.
pub const UNRATED: u32 = 0x7fc0_0000;

/// The bytes of each mask.
pub open spec fn mask_views(ms: Seq<BitMask>) -> Seq<Seq<u8>> {
    ms.map_values(|m: BitMask| m@)
}

/// The total number of set bits over a list of masks.
pub open spec fn total_ones(ms: Seq<Seq<u8>>) -> nat
    decreases ms.len(),
{
    if ms.len() == 0 {
        0
    } else {
        total_ones(ms.drop_last()) + ones(ms.last())
    }
}

/// The names of the items of a project.
pub open spec fn names_of(items: Seq<(String, u32)>) -> Seq<Seq<char>> {
    items.map_values(|it: (String, u32)| it.0@)
}

/// The number of unordered pairs of `n` items.
pub open spec fn pairs(n: int) -> int {
    (n * n - n) / 2
}

/// The data of one project.
pub struct Project {
    pub name: String,
    /// Each item's name and rating (an `f32` bit pattern).
    pub items: Vec<(String, u32)>,
    /// Row `i`, bit `j`: items `i` and `j` were compared (bit `i` of row `i` is always set).
    pub bitmasks: Vec<BitMask>,
    /// Row `i`, bit `j`: item `i` beat item `j` in the current window.
    pub results: Vec<BitMask>,
    pub total_ratings: usize,
    pub num_rated_items: usize,
}

/// `new` is `old` started over with the names `names`: each unrated, compared
/// only with itself, with no results.
pub open spec fn restarted(names: Seq<String>, new: Project) -> bool {
    &&& new.len() == names.len()
    &&& forall|p: int| 0 <= p < names.len() ==> #[trigger] new.items@[p] == (names[p], UNRATED)
    &&& forall|i: int, k: int| 0 <= i < new.len() ==> #[trigger] new.compared(i, k) == (i == k)
    &&& forall|i: int, k: int| 0 <= i < new.len() ==> !#[trigger] new.won(i, k)
}

/// `new` is `old` brought in line with `names`: the items of `old` whose name is
/// in `names` stay, in order, with their ratings, comparisons and results; after
/// them come the names of `names` that `old` did not have (repetitions kept), in
/// some order, unrated, compared only with themselves and without results.
pub open spec fn merged(old: Project, names: Seq<String>, new: Project) -> bool {
    let keep = kept_indices(names_of(old.items@), string_views(names));
    let m = keep.len() as int;
    let added = added_names(names_of(old.items@), names);
    &&& new.len() == m + added.len()
    &&& forall|p: int| 0 <= p < m ==> #[trigger] new.items@[p] == old.items@[keep[p]]
    &&& new.items@.skip(m).map_values(|it: (String, u32)| it.0).to_multiset() == added.to_multiset()
    &&& forall|p: int| m <= p < new.len() ==> #[trigger] new.items@[p].1 == UNRATED
    &&& forall|p: int, q: int|
        0 <= p < m && 0 <= q < m ==> #[trigger] new.compared(p, q) == old.compared(keep[p], keep[q])
    &&& forall|p: int, q: int|
        0 <= p < m && 0 <= q < m ==> #[trigger] new.won(p, q) == old.won(keep[p], keep[q])
    &&& forall|p: int, q: int|
        0 <= p < new.len() && 0 <= q < new.len() && (m <= p || m <= q) ==> #[trigger] new.compared(
            p,
            q,
        ) == (p == q)
    &&& forall|p: int, q: int|
        0 <= p < new.len() && 0 <= q < new.len() && (m <= p || m <= q) ==> !#[trigger] new.won(p, q)
}

/// What synchronising `old` with the names `names` gives: a restart when either
/// is empty, a merge otherwise; the name never changes.
pub open spec fn synced(old: Project, names: Seq<String>, new: Project) -> bool {
    &&& new.name == old.name
    &&& if old.len() == 0 || names.len() == 0 {
        restarted(names, new)
    } else {
        merged(old, names, new)
    }
}

/// `new` is `old` with every comparison and result forgotten.
pub open spec fn reset_of(old: Project, new: Project) -> bool {
    &&& new.name == old.name
    &&& new.items == old.items
    &&& new.total_ratings == old.total_ratings
    &&& new.num_rated_items == 0
    &&& new.well_formed()
    &&& forall|i: int, k: int| 0 <= i < new.len() ==> #[trigger] new.compared(i, k) == (i == k)
    &&& forall|i: int, k: int| 0 <= i < new.len() ==> !#[trigger] new.won(i, k)
}

/// `new` is `old` once the outcome of comparing items `a` and `b` is recorded:
/// the two are marked as compared with each other, the winner (`a` when
/// `a_won`) as having beaten the other, and one more pair is counted as rated.
pub open spec fn logged(old: Project, a: int, b: int, a_won: bool, new: Project) -> bool {
    &&& new.name == old.name
    &&& new.items == old.items
    &&& new.total_ratings == old.total_ratings
    &&& new.num_rated_items == old.num_rated_items + 1
    &&& new.bitmasks@.len() == old.bitmasks@.len()
    &&& new.results@.len() == old.results@.len()
    &&& forall|r: int, c: int| 0 <= r < old.len() ==> #[trigger] new.compared(r, c) == (old.compared(r, c)
        || (r == a && c == b) || (r == b && c == a))
    &&& forall|r: int, c: int| 0 <= r < old.len() ==> #[trigger] new.won(r, c) == (old.won(r, c) || (
    a_won && r == a && c == b) || (!a_won && r == b && c == a))
}

impl Project {
    pub open spec fn len(&self) -> int {
        self.items@.len() as int
    }

    /// Whether items `i` and `k` were compared.
    pub open spec fn compared(&self, i: int, k: int) -> bool {
        mask_bit(self.bitmasks@[i]@, k)
    }

    /// Whether item `i` beat item `k` in the current window.
    pub open spec fn won(&self, i: int, k: int) -> bool {
        mask_bit(self.results@[i]@, k)
    }

    /// The shape every operation of the ranker relies on: one row of each matrix
    /// per item, each row as long as the number of items needs, the comparison
    /// matrix symmetric with its diagonal set and nothing set past the last item.
    pub open spec fn well_formed(&self) -> bool {
        let n = self.len();
        let bm = self.bitmasks@;
        &&& n <= u16::MAX
        &&& bm.len() == n
        &&& self.results@.len() == n
        &&& forall|i: int| 0 <= i < n ==> (#[trigger] bm[i])@.len() == bytes_for_bits(n)
        &&& forall|i: int| 0 <= i < n ==> (#[trigger] self.results@[i])@.len() == bytes_for_bits(n)
        &&& forall|i: int| 0 <= i < n ==> #[trigger] mask_bit(bm[i]@, i)
        &&& forall|i: int, k: int|
            0 <= i < n && 0 <= k < n ==> #[trigger] mask_bit(bm[i]@, k) == mask_bit(bm[k]@, i)
        &&& forall|i: int, k: int| 0 <= i < n && n <= k ==> !#[trigger] mask_bit(bm[i]@, k)
        &&& forall|i: int, k: int|
            0 <= i < n && n <= k ==> !#[trigger] mask_bit(self.results@[i]@, k)
    }

    /// The counters that follow from the matrices.
    pub open spec fn counts_agree(&self) -> bool {
        &&& self.num_rated_items == (total_ones(mask_views(self.bitmasks@))
            - self.bitmasks@.len()) / 2
        &&& self.total_ratings == pairs(self.len())
    }

    /// A project with no items.
    pub fn empty(name: String) -> (p: Project)
        ensures
            p.name == name,
            p.len() == 0,
            p.bitmasks@.len() == 0,
            p.results@.len() == 0,
            p.total_ratings == 0,
            p.num_rated_items == 0,
            p.well_formed(),
    {
        Project {
            name,
            items: Vec::new(),
            bitmasks: Vec::new(),
            results: Vec::new(),
            total_ratings: 0,
            num_rated_items: 0,
        }
    }

    /// Recomputes the number of rated pairs from the comparison matrix, and the
    /// number of all pairs from the number of items.
    fn refresh_counts(&mut self)
        requires
            total_ones(mask_views(old(self).bitmasks@)) <= u16::MAX,
            total_ones(mask_views(old(self).bitmasks@)) >= old(self).bitmasks@.len(),
            old(self).len() * old(self).len() <= usize::MAX,
        ensures
            final(self).name == old(self).name,
            final(self).items == old(self).items,
            final(self).bitmasks == old(self).bitmasks,
            final(self).results == old(self).results,
            final(self).counts_agree(),
            old(self).well_formed() ==> final(self).well_formed(),
    {
        let ghost vs = mask_views(self.bitmasks@);
        let mut sum: u16 = 0;
        let mut i: usize = 0;
        while i < self.bitmasks.len()
            invariant
                i <= self.bitmasks@.len(),
                vs == mask_views(self.bitmasks@),
                total_ones(vs) <= u16::MAX,
                sum == total_ones(vs.take(i as int)),
            decreases self.bitmasks@.len() - i,
        {
            proof {
                lemma_total_ones_each(vs, i as int);
                assert(vs.take(i + 1).drop_last() =~= vs.take(i as int));
                lemma_total_ones_prefix(vs, i + 1);
            }
            let c = self.bitmasks[i].get_num_ones();
            sum = sum + c;
            i = i + 1;
        }
        assert(vs.take(i as int) =~= vs);
        self.num_rated_items = (sum as usize - self.bitmasks.len()) / 2;
        let n = self.items.len();
        assert(n * n >= n) by (nonlinear_arith);
        self.total_ratings = (n * n - n) / 2;
    }

    /// A project rebuilt from its cached items and matrices, as loading it does:
    /// when there are items but either matrix is missing, both are rebuilt with
    /// nothing compared. `None` where counting the set bits overflows 16 bits or
    /// finds fewer set bits than rows.
    pub fn from_cache(
        name: String,
        items: Vec<(String, u32)>,
        bitmasks: Vec<BitMask>,
        results: Vec<BitMask>,
    ) -> (p: Option<Project>)
        requires
            items@.len() <= u16::MAX,
        ensures
            ({
                let rebuild = items@.len() > 0 && (bitmasks@.len() == 0 || results@.len() == 0);
                let vs = mask_views(bitmasks@);
                match p {
                    Some(p) => {
                        &&& p.name == name
                        &&& p.items == items
                        &&& p.counts_agree()
                        &&& rebuild ==> p.num_rated_items == 0 && p.well_formed() && (forall|
                            i: int,
                            k: int,
                        | 0 <= i < p.len() ==> #[trigger] p.compared(i, k) == (i == k)) && (forall|
                            i: int,
                            k: int,
                        | 0 <= i < p.len() ==> !#[trigger] p.won(i, k))
                        &&& !rebuild ==> p.bitmasks == bitmasks && p.results == results
                    },
                    None => !rebuild && (total_ones(vs) > u16::MAX || total_ones(vs)
                        < bitmasks@.len()),
                }
            }),
    {
        let mut p = Project {
            name,
            items,
            bitmasks,
            results,
            total_ratings: 0,
            num_rated_items: 0,
        };
        let rebuild = !p.items.is_empty() && (p.bitmasks.is_empty() || p.results.is_empty());
        if rebuild {
            p.reset_bitmasks_and_results();
            proof {
                let vs = mask_views(p.bitmasks@);
                assert forall|i: int| 0 <= i < vs.len() implies ones(#[trigger] vs[i]) == 1 by {
                    assert(vs[i] == p.bitmasks@[i]@);
                    assert forall|k: int| #[trigger] crate::bitmask::mask_bit(vs[i], k) == (k
                        == i) by {
                        assert(p.compared(i, k) == (i == k));
                    }
                    crate::bitmask::lemma_ones_single(vs[i], i);
                }
                lemma_total_ones_exact(vs);
            }
        }
        let total = ones_total_u16(&p.bitmasks);
        match total {
            None => {
                return None;
            },
            Some(t) => {
                if (t as usize) < p.bitmasks.len() {
                    return None;
                }
            },
        }
        proof {
            let n = p.len();
            assert(n * n <= 65535 * 65535) by (nonlinear_arith)
                requires
                    0 <= n <= 65535,
            ;
        }
        let ghost mid = p;
        p.refresh_counts();
        proof {
            if rebuild {
                assert forall|i: int, k: int| 0 <= i < p.len() implies #[trigger] p.compared(i, k)
                    == (i == k) by {
                    assert(mid.compared(i, k) == (i == k));
                }
                assert forall|i: int, k: int| 0 <= i < p.len() implies !#[trigger] p.won(i, k) by {
                    assert(!mid.won(i, k));
                }
            }
        }
        Some(p)
    }

    /// Drops every item whose name is not in `names`, with its row and column of
    /// both matrices; the rest keep their order.
    fn remove_missing(&mut self, names: &Vec<String>)
        requires
            old(self).well_formed(),
        ensures
            ({
                let o = old(self);
                let keep = kept_indices(names_of(o.items@), string_views(names@));
                let m = keep.len() as int;
                let l = bytes_for_bits(o.len());
                &&& final(self).name == o.name
                &&& final(self).total_ratings == o.total_ratings
                &&& final(self).num_rated_items == o.num_rated_items
                &&& final(self).items@.len() == m
                &&& final(self).bitmasks@.len() == m
                &&& final(self).results@.len() == m
                &&& forall|p: int| 0 <= p < m ==> #[trigger] final(self).items@[p] == o.items@[keep[p]]
                &&& forall|p: int| 0 <= p < m ==> (#[trigger] final(self).bitmasks@[p])@.len() == l
                &&& forall|p: int| 0 <= p < m ==> (#[trigger] final(self).results@[p])@.len() == l
                &&& forall|p: int, q: int|
                    0 <= p < m && 0 <= q < m ==> #[trigger] mask_bit(final(self).bitmasks@[p]@, q)
                        == mask_bit(o.bitmasks@[keep[p]]@, keep[q])
                &&& forall|p: int, q: int|
                    0 <= p < m && 0 <= q < m ==> #[trigger] mask_bit(final(self).results@[p]@, q)
                        == mask_bit(o.results@[keep[p]]@, keep[q])
                &&& forall|p: int, q: int|
                    0 <= p < m && m <= q ==> !#[trigger] mask_bit(final(self).bitmasks@[p]@, q)
                &&& forall|p: int, q: int|
                    0 <= p < m && m <= q ==> !#[trigger] mask_bit(final(self).results@[p]@, q)
            }),
    {
        let n0 = self.items.len();
        let ghost o = *self;
        let ghost on = names_of(o.items@);
        let ghost nv = string_views(names@);
        let ghost l = bytes_for_bits(n0 as int);
        let ghost mut origin: Seq<int> = Seq::new(n0 as nat, |k: int| k);
        proof {
            assert(origin =~= Seq::new(n0 as nat, |k: int| k) + kept_from(on, nv, n0 as int));
        }
        let mut i: usize = n0;
        while i > 0
            invariant
                o == *old(self),
                o.well_formed(),
                n0 == o.len(),
                on == names_of(o.items@),
                nv == string_views(names@),
                l == bytes_for_bits(n0 as int),
                i <= n0,
                origin == Seq::new(i as nat, |k: int| k) + kept_from(on, nv, i as int),
                self.name == o.name,
                self.total_ratings == o.total_ratings,
                self.num_rated_items == o.num_rated_items,
                self.items@.len() == origin.len(),
                self.bitmasks@.len() == origin.len(),
                self.results@.len() == origin.len(),
                forall|p: int| 0 <= p < origin.len() ==> 0 <= #[trigger] origin[p] < n0,
                forall|p: int| 0 <= p < origin.len() ==> #[trigger] self.items@[p] == o.items@[origin[p]],
                forall|p: int| 0 <= p < origin.len() ==> (#[trigger] self.bitmasks@[p])@.len() == l,
                forall|p: int| 0 <= p < origin.len() ==> (#[trigger] self.results@[p])@.len() == l,
                forall|p: int, q: int|
                    0 <= p < origin.len() && 0 <= q < origin.len() ==> #[trigger] mask_bit(
                        self.bitmasks@[p]@,
                        q,
                    ) == mask_bit(o.bitmasks@[origin[p]]@, origin[q]),
                forall|p: int, q: int|
                    0 <= p < origin.len() && 0 <= q < origin.len() ==> #[trigger] mask_bit(
                        self.results@[p]@,
                        q,
                    ) == mask_bit(o.results@[origin[p]]@, origin[q]),
                forall|p: int, q: int|
                    0 <= p < origin.len() && origin.len() <= q ==> !#[trigger] mask_bit(
                        self.bitmasks@[p]@,
                        q,
                    ),
                forall|p: int, q: int|
                    0 <= p < origin.len() && origin.len() <= q ==> !#[trigger] mask_bit(
                        self.results@[p]@,
                        q,
                    ),
            decreases i,
        {
            proof {
                lemma_kept_from(on, nv, i as int);
            }
            i = i - 1;
            assert(origin[i as int] == i);
            let keep = contains_name(names, &self.items[i].0);
            if !keep {
                let ghost len = origin.len() as int;
                let ghost pre = *self;
                self.items.remove(i);
                self.bitmasks.remove(i);
                self.results.remove(i);
                proof {
                    assert forall|j: int| 0 <= j < self.bitmasks@.len() implies i as u16 / 8 < (
                    #[trigger] self.bitmasks@[j])@.len() by {
                        assert(self.bitmasks@[j] == pre.bitmasks@[before_removal(i as int, j)]);
                    }
                    assert forall|j: int| 0 <= j < self.results@.len() implies i as u16 / 8 < (
                    #[trigger] self.results@[j])@.len() by {
                        assert(self.results@[j] == pre.results@[before_removal(i as int, j)]);
                    }
                }
                let ghost mid = *self;
                discard_in_all(&mut self.bitmasks, i as u16);
                discard_in_all(&mut self.results, i as u16);
                proof {
                    let norigin = origin.remove(i as int);
                    assert(norigin =~= Seq::new(i as nat, |k: int| k) + kept_from(on, nv, i as int));
                    assert forall|p: int, q: int|
                        0 <= p < norigin.len() && 0 <= q < norigin.len() implies #[trigger] mask_bit(
                        self.bitmasks@[p]@,
                        q,
                    ) == mask_bit(o.bitmasks@[norigin[p]]@, norigin[q]) by {
                        assert(mid.bitmasks@[p] == pre.bitmasks@[before_removal(i as int, p)]);
                        assert(norigin[q] == origin[before_removal(i as int, q)]);
                    }
                    assert forall|p: int, q: int|
                        0 <= p < norigin.len() && 0 <= q < norigin.len() implies #[trigger] mask_bit(
                        self.results@[p]@,
                        q,
                    ) == mask_bit(o.results@[norigin[p]]@, norigin[q]) by {
                        assert(mid.results@[p] == pre.results@[before_removal(i as int, p)]);
                        assert(norigin[q] == origin[before_removal(i as int, q)]);
                    }
                    assert forall|p: int, q: int|
                        0 <= p < norigin.len() && norigin.len() <= q implies !#[trigger] mask_bit(
                        self.bitmasks@[p]@,
                        q,
                    ) by {
                        assert(mid.bitmasks@[p] == pre.bitmasks@[before_removal(i as int, p)]);
                    }
                    assert forall|p: int, q: int|
                        0 <= p < norigin.len() && norigin.len() <= q implies !#[trigger] mask_bit(
                        self.results@[p]@,
                        q,
                    ) by {
                        assert(mid.results@[p] == pre.results@[before_removal(i as int, p)]);
                    }
                    assert forall|p: int| 0 <= p < norigin.len() implies #[trigger] self.items@[p]
                        == o.items@[norigin[p]] by {
                        assert(self.items@[p] == pre.items@[before_removal(i as int, p)]);
                    }
                    assert forall|p: int| 0 <= p < norigin.len() implies (
                    #[trigger] self.bitmasks@[p])@.len() == l by {
                        assert(mid.bitmasks@[p] == pre.bitmasks@[before_removal(i as int, p)]);
                    }
                    assert forall|p: int| 0 <= p < norigin.len() implies (
                    #[trigger] self.results@[p])@.len() == l by {
                        assert(mid.results@[p] == pre.results@[before_removal(i as int, p)]);
                    }
                    origin = norigin;
                }
            } else {
                proof {
                    assert(origin =~= Seq::new(i as nat, |k: int| k) + kept_from(on, nv, i as int));
                }
            }
        }
        assert(origin =~= kept_indices(on, nv));
    }

    /// Appends an unrated item called `name` that is compared only with itself.
    fn push_new_item(&mut self, name: String)
        requires
            old(self).len() < u16::MAX,
            old(self).bitmasks@.len() == old(self).len(),
            old(self).results@.len() == old(self).len(),
        ensures
            final(self).name == old(self).name,
            final(self).total_ratings == old(self).total_ratings,
            final(self).num_rated_items == old(self).num_rated_items,
            final(self).items@ == old(self).items@.push((name, UNRATED)),
            final(self).bitmasks@.len() == old(self).len() + 1,
            final(self).results@.len() == old(self).len() + 1,
            forall|p: int| 0 <= p < old(self).len() ==> #[trigger] final(self).bitmasks@[p] == old(self).bitmasks@[p],
            forall|p: int| 0 <= p < old(self).len() ==> #[trigger] final(self).results@[p] == old(self).results@[p],
            final(self).bitmasks@[old(self).len()]@.len() <= u16::MAX,
            final(self).results@[old(self).len()]@.len() <= u16::MAX,
            forall|q: int| #[trigger] mask_bit(final(self).bitmasks@[old(self).len()]@, q) == (q == old(self).len()),
            forall|q: int| !#[trigger] mask_bit(final(self).results@[old(self).len()]@, q),
    {
        let n = self.items.len();
        let mut bitmask = BitMask::from(Vec::new());
        bitmask.set_bit(n as u16);
        proof {
            assert forall|q: int| #[trigger] mask_bit(bitmask@, q) == (q == n) by {
                crate::bitmask::lemma_single_set_bit(bitmask, n as u16, q);
            }
        }
        self.bitmasks.push(bitmask);
        self.items.push((name, UNRATED));
        let result = BitMask::from(Vec::new());
        self.results.push(result);
    }

    /// Whether synchronising with `names` leaves at most 2^16 - 1 items.
    pub fn sync_fits(&self, names: &Vec<String>) -> (fits: bool)
        ensures
            fits == (synced_len(self.items@, names@) <= u16::MAX),
    {
        let ghost on = names_of(self.items@);
        let ghost nv = string_views(names@);
        let n = self.items.len();
        let mut kept: usize = 0;
        let mut i: usize = n;
        proof {
            assert(kept_from(on, nv, n as int) =~= Seq::<int>::empty());
        }
        while i > 0
            invariant
                on == names_of(self.items@),
                nv == string_views(names@),
                n == self.items@.len(),
                i <= n,
                kept == kept_from(on, nv, i as int).len(),
                kept <= n - i,
            decreases i,
        {
            i = i - 1;
            if contains_name(names, &self.items[i].0) {
                kept = kept + 1;
            }
        }
        let mut added: usize = 0;
        let mut k: usize = 0;
        while k < names.len()
            invariant
                on == names_of(self.items@),
                k <= names@.len(),
                added == added_names(on, names@.take(k as int)).len(),
                added <= 65535,
            decreases names@.len() - k,
        {
            proof {
                assert(names@.take(k + 1).drop_last() =~= names@.take(k as int));
            }
            if !has_item(&self.items, &names[k]) {
                if added == 65535 {
                    proof {
                        lemma_added_names_prefix(on, names@, k + 1);
                    }
                    return false;
                }
                added = added + 1;
            }
            k = k + 1;
        }
        assert(names@.take(k as int) =~= names@);
        kept <= 65535 && kept + added <= 65535
    }

    /// Whether the project has the shape every ranker operation relies on.
    pub fn is_well_formed(&self) -> (ok: bool)
        ensures
            ok == self.well_formed(),
    {
        let n = self.items.len();
        if n > 65535 || self.bitmasks.len() != n || self.results.len() != n {
            return false;
        }
        let bytes: usize = (n + 7) / 8;
        let mut i: usize = 0;
        while i < n
            invariant
                n == self.len(),
                n <= 65535,
                bytes == bytes_for_bits(n as int),
                self.bitmasks@.len() == n,
                self.results@.len() == n,
                i <= n,
                forall|t: int| 0 <= t < i ==> (#[trigger] self.bitmasks@[t])@.len() == bytes,
                forall|t: int| 0 <= t < i ==> (#[trigger] self.results@[t])@.len() == bytes,
            decreases n - i,
        {
            if self.bitmasks[i].ref_vec().len() != bytes || self.results[i].ref_vec().len() != bytes {
                return false;
            }
            i = i + 1;
        }
        let ghost bm = self.bitmasks@;
        let ghost rs = self.results@;
        let mut i: usize = 0;
        while i < n
            invariant
                n == self.len(),
                n <= 65535,
                bytes == bytes_for_bits(n as int),
                bm == self.bitmasks@,
                rs == self.results@,
                bm.len() == n,
                rs.len() == n,
                i <= n,
                forall|t: int| 0 <= t < n ==> (#[trigger] bm[t])@.len() == bytes,
                forall|t: int| 0 <= t < n ==> (#[trigger] rs[t])@.len() == bytes,
                forall|t: int| 0 <= t < i ==> #[trigger] mask_bit(bm[t]@, t),
                forall|t: int, k: int|
                    0 <= t < i && 0 <= k < n ==> #[trigger] mask_bit(bm[t]@, k) == mask_bit(bm[k]@, t),
                forall|t: int, k: int| 0 <= t < i && n <= k ==> !#[trigger] mask_bit(bm[t]@, k),
                forall|t: int, k: int| 0 <= t < i && n <= k ==> !#[trigger] mask_bit(rs[t]@, k),
            decreases n - i,
        {
            let mut k: usize = 0;
            while k < 8 * bytes
                invariant
                    n == self.len(),
                    n <= 65535,
                    bytes == bytes_for_bits(n as int),
                    bm == self.bitmasks@,
                    rs == self.results@,
                    bm.len() == n,
                    rs.len() == n,
                    i < n,
                    k <= 8 * bytes,
                    forall|t: int| 0 <= t < n ==> (#[trigger] bm[t])@.len() == bytes,
                    forall|t: int| 0 <= t < n ==> (#[trigger] rs[t])@.len() == bytes,
                    i < k ==> mask_bit(bm[i as int]@, i as int),
                    forall|q: int| 0 <= q < k && q < n ==> #[trigger] mask_bit(bm[i as int]@, q) == mask_bit(bm[q]@, i as int),
                    forall|q: int| 0 <= q < k && n <= q ==> !#[trigger] mask_bit(bm[i as int]@, q),
                    forall|q: int| 0 <= q < k && n <= q ==> !#[trigger] mask_bit(rs[i as int]@, q),
                decreases 8 * bytes - k,
            {
                let b = self.bitmasks[i].check_bit(k as u16);
                assert(mask_bit(bm[i as int]@, k as int) == b);
                if k < n {
                    let c = self.bitmasks[k].check_bit(i as u16);
                    assert(mask_bit(bm[k as int]@, i as int) == c);
                    if b != c || (k == i && !b) {
                        return false;
                    }
                } else {
                    let r = self.results[i].check_bit(k as u16);
                    assert(mask_bit(rs[i as int]@, k as int) == r);
                    if b || r {
                        return false;
                    }
                }
                k = k + 1;
            }
            proof {
                assert forall|q: int| n <= q implies !#[trigger] mask_bit(bm[i as int]@, q) by {}
                assert forall|q: int| n <= q implies !#[trigger] mask_bit(rs[i as int]@, q) by {}
            }
            i = i + 1;
        }
        true
    }

    /// Makes the items follow `items`, the names found now. When the project had
    /// no items, or `items` is empty, the items become `items`, unrated, and every
    /// comparison is forgotten. Otherwise the items whose name is not in `items`
    /// leave, with their rows and columns; the rest keep their order, ratings and
    /// comparisons; and each name of `items` that no item had (repetitions kept)
    /// is appended, in a random order, unrated and compared with nothing.
    /// Then the counters are recomputed, which can only be done where the set
    /// bits of the comparison matrix number at most 2^16 - 1: the result says
    /// whether that held (when it did not, the counters keep their old values).
    pub fn initialize(&mut self, items: Vec<String>) -> (counted: bool)
        requires
            old(self).len() == 0 || items@.len() == 0 ==> items@.len() <= u16::MAX,
            old(self).len() != 0 && items@.len() != 0 ==> old(self).well_formed() && synced_len(
                old(self).items@,
                items@,
            ) <= u16::MAX,
        ensures
            final(self).name == old(self).name,
            final(self).well_formed(),
            counted == (total_ones(mask_views(final(self).bitmasks@)) <= u16::MAX),
            counted ==> final(self).counts_agree(),
            !counted ==> final(self).total_ratings == old(self).total_ratings
                && final(self).num_rated_items == old(self).num_rated_items,
            synced(*old(self), items@, *final(self)),
    {
        if self.items.is_empty() || items.is_empty() {
            let mut fresh: Vec<(String, u32)> = Vec::new();
            let mut k: usize = 0;
            while k < items.len()
                invariant
                    k <= items@.len(),
                    fresh@.len() == k,
                    forall|p: int| 0 <= p < k ==> #[trigger] fresh@[p] == (items@[p], UNRATED),
                decreases items@.len() - k,
            {
                fresh.push((items[k].clone(), UNRATED));
                k = k + 1;
            }
            self.items = fresh;
            self.reset_bitmasks_and_results();
            proof {
                let vs = mask_views(self.bitmasks@);
                assert forall|i: int| 0 <= i < vs.len() implies ones(#[trigger] vs[i]) == 1 by {
                    assert(vs[i] == self.bitmasks@[i]@);
                    assert forall|k: int| #[trigger] mask_bit(vs[i], k) == (k == i) by {
                        assert(self.compared(i, k) == (i == k));
                    }
                    crate::bitmask::lemma_ones_single(vs[i], i);
                }
                lemma_total_ones_exact(vs);
            }
            let ghost mid = *self;
            let counted = self.count_rated();
            proof {
                assert forall|i: int, k: int| 0 <= i < self.len() implies #[trigger] self.compared(i, k)
                    == (i == k) by {
                    assert(mid.compared(i, k) == (i == k));
                }
                assert forall|i: int, k: int| 0 <= i < self.len() implies !#[trigger] self.won(i, k) by {
                    assert(!mid.won(i, k));
                }
            }
            return counted;
        }
        let ghost o = *self;
        let ghost on = names_of(o.items@);
        let ghost nv = string_views(items@);
        let ghost keep = kept_indices(on, nv);
        self.remove_missing(&items);
        let ghost removed = *self;
        let ghost m = keep.len() as int;
        proof {
            lemma_kept_from(on, nv, 0);
        }
        let mut new_names: Vec<String> = Vec::new();
        let mut k: usize = 0;
        while k < items.len()
            invariant
                k <= items@.len(),
                *self == removed,
                on == names_of(o.items@),
                nv == string_views(items@),
                keep == kept_indices(on, nv),
                m == keep.len(),
                self.items@.len() == m,
                forall|p: int| 0 <= p < m ==> #[trigger] self.items@[p] == o.items@[keep[p]],
                forall|p: int| 0 <= p < keep.len() ==> 0 <= #[trigger] keep[p] < on.len(),
                forall|t: int| 0 <= t < on.len() ==> (keep.contains(t) <==> nv.contains(#[trigger] on[t])),
                new_names@ == added_names(on, items@.take(k as int)),
            decreases items@.len() - k,
        {
            let present = has_item(&self.items, &items[k]);
            proof {
                let x = items@[k as int]@;
                assert(nv[k as int] == x);
                if on.contains(x) {
                    let t = choose|t: int| 0 <= t < on.len() && on[t] == x;
                    assert(keep.contains(t));
                    let p = choose|p: int| 0 <= p < keep.len() && keep[p] == t;
                    assert(names_of(self.items@)[p] == x);
                }
                if names_of(self.items@).contains(x) {
                    let p = choose|p: int| 0 <= p < names_of(self.items@).len() && names_of(self.items@)[p] == x;
                    assert(on[keep[p]] == x);
                }
                assert(items@.take(k + 1).drop_last() =~= items@.take(k as int));
            }
            if !present {
                new_names.push(items[k].clone());
            }
            k = k + 1;
        }
        assert(items@.take(k as int) =~= items@);
        let ghost added = new_names@;
        crate::random::shuffle_in_place(&mut new_names);
        proof {
            new_names@.to_multiset_ensures();
            added.to_multiset_ensures();
        }
        let mut j: usize = 0;
        while j < new_names.len()
            invariant
                j <= new_names@.len(),
                0 <= m,
                m == keep.len(),
                removed.items@.len() == m,
                removed.bitmasks@.len() == m,
                removed.results@.len() == m,
                new_names@.len() == added.len(),
                m + added.len() <= u16::MAX,
                self.name == o.name,
                self.total_ratings == o.total_ratings,
                self.num_rated_items == o.num_rated_items,
                self.items@.len() == m + j,
                self.bitmasks@.len() == m + j,
                self.results@.len() == m + j,
                forall|p: int| 0 <= p < m ==> #[trigger] self.items@[p] == removed.items@[p],
                self.items@.skip(m) == new_names@.take(j as int).map_values(|s: String| (s, UNRATED)),
                forall|p: int| 0 <= p < m ==> #[trigger] self.bitmasks@[p] == removed.bitmasks@[p],
                forall|p: int| 0 <= p < m ==> #[trigger] self.results@[p] == removed.results@[p],
                forall|p: int| m <= p < m + j ==> (#[trigger] self.bitmasks@[p])@.len() <= u16::MAX,
                forall|p: int| m <= p < m + j ==> (#[trigger] self.results@[p])@.len() <= u16::MAX,
                forall|p: int, q: int|
                    m <= p < m + j ==> #[trigger] mask_bit(self.bitmasks@[p]@, q) == (q == p),
                forall|p: int, q: int| m <= p < m + j ==> !#[trigger] mask_bit(self.results@[p]@, q),
            decreases new_names@.len() - j,
        {
            let ghost pre = *self;
            let name = new_names[j].clone();
            assert(name == new_names@[j as int]);
            self.push_new_item(name);
            proof {
                assert(self.items@ == pre.items@.push((new_names@[j as int], UNRATED)));
                assert(pre.items@.skip(m) == new_names@.take(j as int).map_values(|s: String| (s, UNRATED)));
                assert(self.items@.skip(m) =~= pre.items@.skip(m).push((new_names@[j as int], UNRATED)));
                assert(new_names@.take(j + 1).map_values(|s: String| (s, UNRATED)) =~= new_names@.take(j as int).map_values(|s: String| (s, UNRATED)).push((new_names@[j as int], UNRATED)));
                assert forall|p: int| m <= p < m + j + 1 implies (#[trigger] self.bitmasks@[p])@.len() <= u16::MAX by {
                    if p < m + j {
                        assert(self.bitmasks@[p] == pre.bitmasks@[p]);
                    }
                }
                assert forall|p: int| m <= p < m + j + 1 implies (#[trigger] self.results@[p])@.len() <= u16::MAX by {
                    if p < m + j {
                        assert(self.results@[p] == pre.results@[p]);
                    }
                }
                assert forall|p: int, q: int| m <= p < m + j + 1 implies #[trigger] mask_bit(self.bitmasks@[p]@, q) == (q == p) by {
                    if p < m + j {
                        assert(self.bitmasks@[p] == pre.bitmasks@[p]);
                    }
                }
                assert forall|p: int, q: int| m <= p < m + j + 1 implies !#[trigger] mask_bit(self.results@[p]@, q) by {
                    if p < m + j {
                        assert(self.results@[p] == pre.results@[p]);
                    }
                }
            }
            j = j + 1;
        }
        let n = self.items.len();
        let ghost prefit = *self;
        proof {
            assert forall|p: int| 0 <= p < prefit.bitmasks@.len() implies (#[trigger] prefit.bitmasks@[p])@.len() <= u16::MAX by {
                if p < m {
                    assert(removed.bitmasks@[p]@.len() == bytes_for_bits(o.len()));
                }
            }
            assert forall|p: int| 0 <= p < prefit.results@.len() implies (#[trigger] prefit.results@[p])@.len() <= u16::MAX by {
                if p < m {
                    assert(removed.results@[p]@.len() == bytes_for_bits(o.len()));
                }
            }
        }
        fit_all(&mut self.bitmasks, n as u16);
        fit_all(&mut self.results, n as u16);
        proof {
            let nn = n as int;
            assert(nn <= 8 * bytes_for_bits(nn));
            assert forall|p: int, q: int| 0 <= p < nn && 0 <= q < nn implies #[trigger] mask_bit(self.bitmasks@[p]@, q)
                == (if p < m && q < m { mask_bit(o.bitmasks@[keep[p]]@, keep[q]) } else { p == q }) by {
                if p < m {
                    assert(prefit.bitmasks@[p] == removed.bitmasks@[p]);
                }
            }
            assert forall|p: int, q: int| 0 <= p < nn && 0 <= q < nn implies #[trigger] mask_bit(self.results@[p]@, q)
                == (p < m && q < m && mask_bit(o.results@[keep[p]]@, keep[q])) by {
                if p < m {
                    assert(prefit.results@[p] == removed.results@[p]);
                }
            }
            assert forall|p: int, q: int| 0 <= p < nn && nn <= q implies !#[trigger] mask_bit(self.bitmasks@[p]@, q) by {
                if p < m {
                    assert(prefit.bitmasks@[p] == removed.bitmasks@[p]);
                }
            }
            assert forall|p: int, q: int| 0 <= p < nn && nn <= q implies !#[trigger] mask_bit(self.results@[p]@, q) by {
                if p < m {
                    assert(prefit.results@[p] == removed.results@[p]);
                }
            }
            assert forall|p: int| 0 <= p < nn implies #[trigger] mask_bit(self.bitmasks@[p]@, p) by {
                if p < m {
                    assert(mask_bit(self.bitmasks@[p]@, p) == mask_bit(o.bitmasks@[keep[p]]@, keep[p]));
                }
            }
            assert forall|p: int, q: int| 0 <= p < nn && 0 <= q < nn implies #[trigger] mask_bit(self.bitmasks@[p]@, q)
                == mask_bit(self.bitmasks@[q]@, p) by {
                assert(mask_bit(self.bitmasks@[p]@, q) == (if p < m && q < m { mask_bit(o.bitmasks@[keep[p]]@, keep[q]) } else { p == q }));
                assert(mask_bit(self.bitmasks@[q]@, p) == (if p < m && q < m { mask_bit(o.bitmasks@[keep[q]]@, keep[p]) } else { p == q }));
            }
            assert(self.items@.skip(m).map_values(|it: (String, u32)| it.0) =~= new_names@);
            assert forall|p: int| m <= p < nn implies #[trigger] self.items@[p].1 == UNRATED by {
                assert(self.items@[p] == self.items@.skip(m)[p - m]);
            }
        }
        self.count_rated()
    }

    /// Recomputes the counters where the set bits of the comparison matrix
    /// number at most 2^16 - 1, and says whether they did.
    fn count_rated(&mut self) -> (counted: bool)
        requires
            old(self).well_formed(),
        ensures
            final(self).name == old(self).name,
            final(self).items == old(self).items,
            final(self).bitmasks == old(self).bitmasks,
            final(self).results == old(self).results,
            final(self).well_formed(),
            counted == (total_ones(mask_views(final(self).bitmasks@)) <= u16::MAX),
            counted ==> final(self).counts_agree(),
            !counted ==> final(self).total_ratings == old(self).total_ratings
                && final(self).num_rated_items == old(self).num_rated_items,
    {
        match ones_total_u16(&self.bitmasks) {
            None => false,
            Some(_) => {
                proof {
                    let vs = mask_views(self.bitmasks@);
                    assert forall|i: int| 0 <= i < vs.len() implies ones(#[trigger] vs[i]) >= 1 by {
                        assert(mask_bit(self.bitmasks@[i]@, i));
                        crate::bitmask::lemma_ones_positive(vs[i], i);
                    }
                    lemma_total_ones_at_least_len(vs);
                    let n = self.len();
                    assert(n * n <= 65535 * 65535) by (nonlinear_arith)
                        requires
                            0 <= n <= 65535,
                    ;
                }
                self.refresh_counts();
                true
            },
        }
    }

    /// Forgets every comparison: row `i` of the comparison matrix keeps only bit `i`,
    /// the results are cleared, and the count of rated pairs drops to zero.
    pub fn reset_bitmasks_and_results(&mut self)
        requires
            old(self).len() <= u16::MAX,
        ensures
            reset_of(*old(self), *final(self)),
    {
        let n = self.items.len();
        self.bitmasks.clear();
        self.results.clear();
        let mut i: usize = 0;
        while i < n
            invariant
                self.name == old(self).name,
                self.items == old(self).items,
                self.total_ratings == old(self).total_ratings,
                n == self.items@.len(),
                n <= u16::MAX,
                i <= n,
                self.bitmasks@.len() == i,
                self.results@.len() == i,
                forall|j: int|
                    0 <= j < i ==> (#[trigger] self.bitmasks@[j])@.len() == bytes_for_bits(n as int),
                forall|j: int|
                    0 <= j < i ==> (#[trigger] self.results@[j])@.len() == bytes_for_bits(n as int),
                forall|j: int, k: int|
                    0 <= j < i ==> #[trigger] mask_bit(self.bitmasks@[j]@, k) == (j == k),
                forall|j: int, k: int| 0 <= j < i ==> !#[trigger] mask_bit(self.results@[j]@, k),
            decreases n - i,
        {
            let mut bitmask = BitMask::from(Vec::new());
            bitmask.set_bit(i as u16);
            let ghost after_set = bitmask@;
            let ghost after_set_mask = bitmask;
            bitmask.fit_to_number_of_bits(n as u16);
            let mut result = BitMask::from(Vec::new());
            result.fit_to_number_of_bits(n as u16);
            proof {
                lemma_bytes_for_bits_covers(i as int, n as int);
                assert forall|k: int| #[trigger] mask_bit(bitmask@, k) == (i == k) by {
                    crate::bitmask::lemma_fit_bit(after_set, bytes_for_bits(n as int), k);
                    crate::bitmask::lemma_single_set_bit(after_set_mask, i as u16, k);
                }
                assert forall|k: int| !#[trigger] mask_bit(result@, k) by {
                    crate::bitmask::lemma_zero_bytes_bit(bytes_for_bits(n as int), k);
                    crate::bitmask::lemma_fit_bit(Seq::empty(), bytes_for_bits(n as int), k);
                }
            }
            self.bitmasks.push(bitmask);
            self.results.push(result);
            i = i + 1;
        }
        self.num_rated_items = 0;
        assert forall|j: int, k: int|
            0 <= j < n && 0 <= k < n implies #[trigger] self.compared(j, k) == self.compared(
            k,
            j,
        ) by {
            assert(self.compared(j, k) == (j == k));
            assert(self.compared(k, j) == (j == k));
        }
    }
}

/// Index `x` of a list before index `r` was removed from it.
pub open spec fn before_removal(r: int, x: int) -> int {
    if x < r {
        x
    } else {
        x + 1
    }
}

/// Removes bit `r` from every mask of `ms`.
fn discard_in_all(ms: &mut Vec<BitMask>, r: u16)
    requires
        forall|j: int| 0 <= j < old(ms)@.len() ==> r / 8 < (#[trigger] old(ms)@[j])@.len(),
    ensures
        final(ms)@.len() == old(ms)@.len(),
        forall|j: int|
            0 <= j < final(ms)@.len() ==> (#[trigger] final(ms)@[j])@.len() == old(ms)@[j]@.len(),
        forall|j: int, q: int|
            0 <= j < final(ms)@.len() ==> #[trigger] mask_bit(final(ms)@[j]@, q) == (0 <= q < 8
                * old(ms)@[j]@.len() - 1 && mask_bit(old(ms)@[j]@, before_removal(r as int, q))),
{
    let mut j: usize = 0;
    while j < ms.len()
        invariant
            j <= ms@.len(),
            ms@.len() == old(ms)@.len(),
            forall|t: int| 0 <= t < ms@.len() ==> (#[trigger] ms@[t])@.len() == old(ms)@[t]@.len(),
            forall|t: int| j <= t < ms@.len() ==> #[trigger] ms@[t] == old(ms)@[t],
            forall|t: int| 0 <= t < old(ms)@.len() ==> r / 8 < (#[trigger] old(ms)@[t])@.len(),
            forall|t: int, q: int|
                0 <= t < j ==> #[trigger] mask_bit(ms@[t]@, q) == (0 <= q < 8 * old(ms)@[t]@.len()
                    - 1 && mask_bit(old(ms)@[t]@, before_removal(r as int, q))),
        decreases ms@.len() - j,
    {
        let ghost before = ms@[j as int];
        ms[j].discard_bit(r);
        proof {
            let after = ms@[j as int];
            assert forall|q: int| #[trigger] mask_bit(after@, q) == (0 <= q < 8 * before@.len() - 1
                && mask_bit(before@, before_removal(r as int, q))) by {
                if 0 <= q < 8 * after@.len() {
                    assert(after.bits()[q] == mask_bit(after@, q));
                    if q < 8 * before@.len() - 1 {
                        let sq = before_removal(r as int, q);
                        assert(before.bits()[sq] == mask_bit(before@, sq));
                    }
                }
            }
        }
        j = j + 1;
    }
}

/// The contents of a list of strings.
pub open spec fn string_views(ss: Seq<String>) -> Seq<Seq<char>> {
    ss.map_values(|s: String| s@)
}

/// The indices `k >= i` of `old` whose name occurs in `names`, in increasing order.
pub open spec fn kept_from(old: Seq<Seq<char>>, names: Seq<Seq<char>>, i: int) -> Seq<int>
    decreases old.len() - i,
{
    if i >= old.len() {
        seq![]
    } else if names.contains(old[i]) {
        seq![i] + kept_from(old, names, i + 1)
    } else {
        kept_from(old, names, i + 1)
    }
}

/// The indices of the items of `old` whose name occurs in `names`, in increasing order.
pub open spec fn kept_indices(old: Seq<Seq<char>>, names: Seq<Seq<char>>) -> Seq<int> {
    kept_from(old, names, 0)
}

/// `kept_from` lists, in increasing order, exactly the indices from `i` on whose name occurs in `names`.
pub proof fn lemma_kept_from(old: Seq<Seq<char>>, names: Seq<Seq<char>>, i: int)
    requires
        0 <= i <= old.len(),
    ensures
        ({
            let kf = kept_from(old, names, i);
            &&& kf.len() <= old.len() - i
            &&& forall|p: int| 0 <= p < kf.len() ==> i <= #[trigger] kf[p] < old.len()
            &&& forall|p: int, q: int| 0 <= p < q < kf.len() ==> kf[p] < kf[q]
            &&& forall|k: int|
                i <= k < old.len() ==> (kf.contains(k) <==> names.contains(#[trigger] old[k]))
        }),
    decreases old.len() - i,
{
    if i < old.len() {
        lemma_kept_from(old, names, i + 1);
        let rest = kept_from(old, names, i + 1);
        let kf = kept_from(old, names, i);
        if names.contains(old[i]) {
            assert(kf == seq![i] + rest);
            assert forall|k: int| i <= k < old.len() implies (kf.contains(k) <==> names.contains(
                #[trigger] old[k],
            )) by {
                if k == i {
                    assert(kf[0] == i);
                } else {
                    if rest.contains(k) {
                        let p = choose|p: int| 0 <= p < rest.len() && rest[p] == k;
                        assert(kf[p + 1] == k);
                    }
                    if kf.contains(k) {
                        let p = choose|p: int| 0 <= p < kf.len() && kf[p] == k;
                        assert(p > 0);
                        assert(rest[p - 1] == k);
                    }
                }
            }
        } else {
            assert forall|k: int| i <= k < old.len() implies (kf.contains(k) <==> names.contains(
                #[trigger] old[k],
            )) by {
                if k == i {
                    if kf.contains(k) {
                        let p = choose|p: int| 0 <= p < kf.len() && kf[p] == k;
                        assert(kf[p] >= i + 1);
                    }
                }
            }
        }
    }
}

/// Whether `name` occurs in `names`.
pub(crate) fn contains_name(names: &Vec<String>, name: &String) -> (found: bool)
    ensures
        found == string_views(names@).contains(name@),
{
    let mut k: usize = 0;
    while k < names.len()
        invariant
            k <= names@.len(),
            forall|t: int| 0 <= t < k ==> names@[t]@ != name@,
        decreases names@.len() - k,
    {
        if names[k] == *name {
            assert(string_views(names@)[k as int] == name@);
            return true;
        }
        k = k + 1;
    }
    assert forall|t: int| 0 <= t < string_views(names@).len() implies string_views(names@)[t]
        != name@ by {
        assert(names@[t]@ != name@);
    }
    false
}

/// The names of `names` that no item of `old` carries, in order, repetitions kept.
pub open spec fn added_names(old: Seq<Seq<char>>, names: Seq<String>) -> Seq<String>
    decreases names.len(),
{
    if names.len() == 0 {
        seq![]
    } else {
        let rest = added_names(old, names.drop_last());
        if old.contains(names.last()@) {
            rest
        } else {
            rest.push(names.last())
        }
    }
}

/// Against a project with no items, every name is added.
pub proof fn lemma_added_names_all(old: Seq<(String, u32)>, names: Seq<String>)
    requires
        old.len() == 0,
    ensures
        added_names(names_of(old), names) == names,
    decreases names.len(),
{
    if names.len() > 0 {
        lemma_added_names_all(old, names.drop_last());
        assert(names.drop_last().push(names.last()) =~= names);
    }
}

/// A prefix of the names adds no more names than all of them.
proof fn lemma_added_names_prefix(old: Seq<Seq<char>>, names: Seq<String>, k: int)
    requires
        0 <= k <= names.len(),
    ensures
        added_names(old, names.take(k)).len() <= added_names(old, names).len(),
    decreases names.len(),
{
    if k < names.len() {
        assert(names.drop_last().take(k) =~= names.take(k));
        lemma_added_names_prefix(old, names.drop_last(), k);
    } else {
        assert(names.take(k) =~= names);
    }
}

/// The number of items a project has after it is synchronised with `names`.
pub open spec fn synced_len(old: Seq<(String, u32)>, names: Seq<String>) -> int {
    (kept_indices(names_of(old), string_views(names)).len() + added_names(names_of(old), names).len()) as int
}

/// Whether an item called `name` is in `items`.
fn has_item(items: &Vec<(String, u32)>, name: &String) -> (found: bool)
    ensures
        found == names_of(items@).contains(name@),
{
    let mut k: usize = 0;
    while k < items.len()
        invariant
            k <= items@.len(),
            forall|t: int| 0 <= t < k ==> items@[t].0@ != name@,
        decreases items@.len() - k,
    {
        if items[k].0 == *name {
            assert(names_of(items@)[k as int] == name@);
            return true;
        }
        k = k + 1;
    }
    assert forall|t: int| 0 <= t < names_of(items@).len() implies names_of(items@)[t]
        != name@ by {
        assert(items@[t].0@ != name@);
    }
    false
}

/// Cuts or zero-pads every mask of `ms` to the bytes needed for `n` bits.
fn fit_all(ms: &mut Vec<BitMask>, n: u16)
    requires
        forall|j: int| 0 <= j < old(ms)@.len() ==> (#[trigger] old(ms)@[j])@.len() <= u16::MAX,
    ensures
        final(ms)@.len() == old(ms)@.len(),
        forall|j: int|
            0 <= j < final(ms)@.len() ==> (#[trigger] final(ms)@[j])@.len() == bytes_for_bits(
                n as int,
            ),
        forall|j: int, q: int|
            0 <= j < final(ms)@.len() ==> #[trigger] mask_bit(final(ms)@[j]@, q) == (q < 8
                * bytes_for_bits(n as int) && mask_bit(old(ms)@[j]@, q)),
{
    let mut j: usize = 0;
    while j < ms.len()
        invariant
            j <= ms@.len(),
            ms@.len() == old(ms)@.len(),
            forall|t: int| j <= t < ms@.len() ==> #[trigger] ms@[t] == old(ms)@[t],
            forall|t: int| 0 <= t < old(ms)@.len() ==> (#[trigger] old(ms)@[t])@.len() <= u16::MAX,
            forall|t: int|
                0 <= t < j ==> (#[trigger] ms@[t])@.len() == bytes_for_bits(n as int),
            forall|t: int, q: int|
                0 <= t < j ==> #[trigger] mask_bit(ms@[t]@, q) == (q < 8 * bytes_for_bits(n as int)
                    && mask_bit(old(ms)@[t]@, q)),
        decreases ms@.len() - j,
    {
        let ghost before = ms@[j as int];
        ms[j].fit_to_number_of_bits(n);
        proof {
            assert forall|q: int| #[trigger] mask_bit(ms@[j as int]@, q) == (q < 8 * bytes_for_bits(
                n as int,
            ) && mask_bit(before@, q)) by {
                crate::bitmask::lemma_fit_bit(before@, bytes_for_bits(n as int), q);
            }
        }
        j = j + 1;
    }
}

/// The set bits of `ms` number at most 2^16 - 1.
fn ones_total_u16(ms: &Vec<BitMask>) -> (total: Option<u16>)
    ensures
        total is None <==> total_ones(mask_views(ms@)) > u16::MAX,
        total matches Some(t) ==> t == total_ones(mask_views(ms@)),
{
    let ghost vs = mask_views(ms@);
    let mut acc: u64 = 0;
    let mut i: usize = 0;
    while i < ms.len()
        invariant
            i <= ms@.len(),
            vs == mask_views(ms@),
            acc == total_ones(vs.take(i as int)),
            acc <= u16::MAX,
        decreases ms@.len() - i,
    {
        let v = ms[i].ref_vec();
        let ghost base = acc as int;
        let mut j: usize = 0;
        while j < v.len()
            invariant
                i < ms@.len(),
                vs == mask_views(ms@),
                v@ == vs[i as int],
                j <= v@.len(),
                base == total_ones(vs.take(i as int)),
                acc == base + crate::bitmask::count_true(crate::bitmask::bits_of(v@).take(8 * j)),
                acc <= u16::MAX,
            decreases v@.len() - j,
        {
            let c = crate::bitmask::byte_count_ones(v[j]);
            proof {
                let bs = crate::bitmask::bits_of(v@);
                assert(bs.take(8 * (j + 1)) =~= bs.take(8 * j) + crate::bitmask::byte_bits(v@[j as int]));
                crate::bitmask::lemma_count_true_append(bs.take(8 * j), crate::bitmask::byte_bits(v@[j as int]));
            }
            acc = acc + c as u64;
            j = j + 1;
            if acc > 65535 {
                proof {
                    let bs = crate::bitmask::bits_of(v@);
                    crate::bitmask::lemma_count_true_prefix(bs, 8 * j);
                    assert(vs.take(i + 1).drop_last() =~= vs.take(i as int));
                    lemma_total_ones_prefix(vs, i + 1);
                }
                return None;
            }
        }
        proof {
            assert(crate::bitmask::bits_of(v@).take(8 * j) =~= crate::bitmask::bits_of(v@));
            assert(vs.take(i + 1).drop_last() =~= vs.take(i as int));
        }
        i = i + 1;
    }
    assert(vs.take(i as int) =~= vs);
    Some(acc as u16)
}

/// A prefix of a list of masks has no more set bits than the whole list.
proof fn lemma_total_ones_prefix(vs: Seq<Seq<u8>>, m: int)
    requires
        0 <= m <= vs.len(),
    ensures
        total_ones(vs.take(m)) <= total_ones(vs),
    decreases vs.len(),
{
    if m < vs.len() {
        assert(vs.drop_last().take(m) =~= vs.take(m));
        lemma_total_ones_prefix(vs.drop_last(), m);
    } else {
        assert(vs.take(m) =~= vs);
    }
}

/// A list of masks has at least as many set bits as any one of them.
proof fn lemma_total_ones_each(vs: Seq<Seq<u8>>, i: int)
    requires
        0 <= i < vs.len(),
    ensures
        ones(vs[i]) <= total_ones(vs),
{
    lemma_total_ones_prefix(vs, i + 1);
    assert(vs.take(i + 1).drop_last() =~= vs.take(i));
}

/// A list of masks with one set bit each has as many set bits as masks.
proof fn lemma_total_ones_exact(vs: Seq<Seq<u8>>)
    requires
        forall|i: int| 0 <= i < vs.len() ==> ones(#[trigger] vs[i]) == 1,
    ensures
        total_ones(vs) == vs.len(),
    decreases vs.len(),
{
    if vs.len() > 0 {
        lemma_total_ones_exact(vs.drop_last());
    }
}

/// Every mask with a set bit adds at least one.
proof fn lemma_total_ones_at_least_len(vs: Seq<Seq<u8>>)
    requires
        forall|i: int| 0 <= i < vs.len() ==> ones(#[trigger] vs[i]) >= 1,
    ensures
        total_ones(vs) >= vs.len(),
    decreases vs.len(),
{
    if vs.len() > 0 {
        lemma_total_ones_at_least_len(vs.drop_last());
    }
}

/// `bytes_for_bits(n)` bytes hold bit `i` for every `i < n`, and bit `i` needs `i / 8 + 1` of them.
pub proof fn lemma_bytes_for_bits_covers(i: int, n: int)
    requires
        0 <= i < n,
    ensures
        i / 8 + 1 <= bytes_for_bits(n),
        i < 8 * bytes_for_bits(n),
        n <= 8 * bytes_for_bits(n),
{
}


/// Two lists of masks whose masks have the same set bits but for one more in
/// mask `a` and one more in mask `b` (two different masks) have two more set bits.
proof fn lemma_total_ones_two_more(vs: Seq<Seq<u8>>, us: Seq<Seq<u8>>, a: int, b: int)
    requires
        vs.len() == us.len(),
        0 <= a < vs.len(),
        0 <= b < vs.len(),
        a != b,
        forall|i: int| 0 <= i < vs.len() ==> ones(#[trigger] us[i]) == ones(vs[i]) + (if i == a
            || i == b {
            1int
        } else {
            0int
        }),
    ensures
        total_ones(us) == total_ones(vs) + 2,
    decreases vs.len(),
{
    let l = vs.len() - 1;
    if a == l || b == l {
        let o = if a == l { b } else { a };
        assert forall|i: int| 0 <= i < l implies ones(#[trigger] us.drop_last()[i]) == ones(vs.drop_last()[i]) + (if i == o {
            1int
        } else {
            0int
        }) by {
            assert(us.drop_last()[i] == us[i]);
            assert(vs.drop_last()[i] == vs[i]);
        }
        lemma_total_ones_one_more(vs.drop_last(), us.drop_last(), o);
    } else {
        assert forall|i: int| 0 <= i < l implies ones(#[trigger] us.drop_last()[i]) == ones(vs.drop_last()[i]) + (if i == a || i == b {
            1int
        } else {
            0int
        }) by {
            assert(us.drop_last()[i] == us[i]);
            assert(vs.drop_last()[i] == vs[i]);
        }
        lemma_total_ones_two_more(vs.drop_last(), us.drop_last(), a, b);
    }
}

/// Two lists of masks whose masks have the same set bits but for one more in
/// mask `a` have one more set bit.
proof fn lemma_total_ones_one_more(vs: Seq<Seq<u8>>, us: Seq<Seq<u8>>, a: int)
    requires
        vs.len() == us.len(),
        0 <= a < vs.len(),
        forall|i: int| 0 <= i < vs.len() ==> ones(#[trigger] us[i]) == ones(vs[i]) + (if i == a {
            1int
        } else {
            0int
        }),
    ensures
        total_ones(us) == total_ones(vs) + 1,
    decreases vs.len(),
{
    let l = vs.len() - 1;
    if a == l {
        assert forall|i: int| 0 <= i < l implies ones(#[trigger] us.drop_last()[i]) == ones(vs.drop_last()[i]) by {
            assert(us.drop_last()[i] == us[i]);
            assert(vs.drop_last()[i] == vs[i]);
        }
        lemma_total_ones_same(vs.drop_last(), us.drop_last());
    } else {
        assert forall|i: int| 0 <= i < l implies ones(#[trigger] us.drop_last()[i]) == ones(vs.drop_last()[i]) + (if i == a {
            1int
        } else {
            0int
        }) by {
            assert(us.drop_last()[i] == us[i]);
            assert(vs.drop_last()[i] == vs[i]);
        }
        lemma_total_ones_one_more(vs.drop_last(), us.drop_last(), a);
    }
}

/// Two lists of masks whose masks have as many set bits each have as many in all.
proof fn lemma_total_ones_same(vs: Seq<Seq<u8>>, us: Seq<Seq<u8>>)
    requires
        vs.len() == us.len(),
        forall|i: int| 0 <= i < vs.len() ==> ones(#[trigger] us[i]) == ones(vs[i]),
    ensures
        total_ones(us) == total_ones(vs),
    decreases vs.len(),
{
    if vs.len() > 0 {
        let l = vs.len() - 1;
        assert forall|i: int| 0 <= i < l implies ones(#[trigger] us.drop_last()[i]) == ones(vs.drop_last()[i]) by {
            assert(us.drop_last()[i] == us[i]);
            assert(vs.drop_last()[i] == vs[i]);
        }
        lemma_total_ones_same(vs.drop_last(), us.drop_last());
    }
}

/// Recording the outcome of a pair that had not been compared keeps the count
/// of rated pairs equal to the number of compared pairs (as loading and
/// synchronising compute it), and leaves the pair compared both ways with the
/// winner's result set.
pub proof fn law_log_keeps_counts(old: Project, a: int, b: int, a_won: bool, new: Project)
    requires
        old.well_formed(),
        new.well_formed(),
        old.counts_agree(),
        0 <= a < old.len(),
        0 <= b < old.len(),
        a != b,
        !old.compared(a, b),
        logged(old, a, b, a_won, new),
    ensures
        new.counts_agree(),
        new.compared(a, b),
        new.compared(b, a),
        new.won(a, b) == (a_won || old.won(a, b)),
        new.won(b, a) == (!a_won || old.won(b, a)),
{
    let n = old.len();
    let vs = mask_views(old.bitmasks@);
    let us = mask_views(new.bitmasks@);
    assert(new.len() == n);
    lemma_bytes_for_bits_covers(a, n);
    lemma_bytes_for_bits_covers(b, n);
    assert(!old.compared(b, a));
    assert forall|i: int| 0 <= i < vs.len() implies ones(#[trigger] us[i]) == ones(vs[i]) + (if i
        == a || i == b {
        1int
    } else {
        0int
    }) by {
        assert(us[i] == new.bitmasks@[i]@);
        assert(vs[i] == old.bitmasks@[i]@);
        if i == a {
            assert forall|k: int| #[trigger] mask_bit(us[i], k) == (mask_bit(vs[i], k) || k == b) by {
                assert(new.compared(i, k) == (old.compared(i, k) || (i == a && k == b) || (i == b
                    && k == a)));
            }
            crate::bitmask::lemma_ones_one_more(vs[i], us[i], b);
        } else if i == b {
            assert forall|k: int| #[trigger] mask_bit(us[i], k) == (mask_bit(vs[i], k) || k == a) by {
                assert(new.compared(i, k) == (old.compared(i, k) || (i == a && k == b) || (i == b
                    && k == a)));
            }
            crate::bitmask::lemma_ones_one_more(vs[i], us[i], a);
        } else {
            assert forall|k: int| #[trigger] mask_bit(us[i], k) == mask_bit(vs[i], k) by {
                assert(new.compared(i, k) == (old.compared(i, k) || (i == a && k == b) || (i == b
                    && k == a)));
            }
            crate::bitmask::lemma_ones_same(vs[i], us[i]);
        }
    }
    lemma_total_ones_two_more(vs, us, a, b);
    assert(new.compared(a, b) == (old.compared(a, b) || (a == a && b == b) || (a == b && b == a)));
    assert(new.compared(b, a) == (old.compared(b, a) || (b == a && a == b) || (b == b && a == a)));
    assert(new.won(a, b) == (old.won(a, b) || (a_won && a == a && b == b) || (!a_won && a == b && b
        == a)));
    assert(new.won(b, a) == (old.won(b, a) || (a_won && b == a && a == b) || (!a_won && b == b && a
        == a)));
}

/// Forgetting every comparison keeps the counters in agreement with the matrices:
/// no pair is rated after it.
pub proof fn law_reset_keeps_counts(old: Project, new: Project)
    requires
        old.counts_agree(),
        reset_of(old, new),
    ensures
        new.counts_agree(),
        new.num_rated_items == 0,
{
    let vs = mask_views(new.bitmasks@);
    assert forall|i: int| 0 <= i < vs.len() implies ones(#[trigger] vs[i]) == 1 by {
        assert(vs[i] == new.bitmasks@[i]@);
        assert forall|k: int| #[trigger] mask_bit(vs[i], k) == (k == i) by {
            assert(new.compared(i, k) == (i == k));
        }
        crate::bitmask::lemma_ones_single(vs[i], i);
    }
    lemma_total_ones_exact(vs);
}

/// When every name of `old` occurs in `names`, every index from `i` on is kept.
proof fn lemma_kept_all(old: Seq<Seq<char>>, names: Seq<Seq<char>>, i: int)
    requires
        0 <= i <= old.len(),
        forall|k: int| 0 <= k < old.len() ==> names.contains(#[trigger] old[k]),
    ensures
        kept_from(old, names, i) == Seq::new((old.len() - i) as nat, |p: int| p + i),
    decreases old.len() - i,
{
    if i < old.len() {
        lemma_kept_all(old, names, i + 1);
        assert(names.contains(old[i]));
        assert(kept_from(old, names, i) =~= Seq::new((old.len() - i) as nat, |p: int| p + i));
    } else {
        assert(kept_from(old, names, i) =~= Seq::new((old.len() - i) as nat, |p: int| p + i));
    }
}

/// When every name of `names` is carried by an item of `old`, none is added.
proof fn lemma_added_none(old: Seq<Seq<char>>, names: Seq<String>)
    requires
        forall|t: int| 0 <= t < names.len() ==> old.contains(#[trigger] names[t]@),
    ensures
        added_names(old, names) == Seq::<String>::empty(),
    decreases names.len(),
{
    if names.len() > 0 {
        assert(old.contains(names[names.len() - 1]@));
        assert forall|t: int| 0 <= t < names.drop_last().len() implies old.contains(#[trigger] names.drop_last()[t]@) by {
            assert(names.drop_last()[t] == names[t]);
        }
        lemma_added_none(old, names.drop_last());
    }
}

/// The names of the items of a project, as strings.
pub open spec fn item_names(items: Seq<(String, u32)>) -> Seq<String> {
    items.map_values(|it: (String, u32)| it.0)
}

/// Synchronising a project with the names of its own items changes nothing:
/// the items keep their order and ratings, and every comparison and result stays.
pub proof fn law_sync_with_own_names(old: Project, new: Project)
    requires
        synced(old, item_names(old.items@), new),
    ensures
        new.items@ == old.items@,
        forall|p: int, q: int| 0 <= p < old.len() && 0 <= q < old.len() ==> #[trigger] new.compared(p, q) == old.compared(p, q),
        forall|p: int, q: int| 0 <= p < old.len() && 0 <= q < old.len() ==> #[trigger] new.won(p, q) == old.won(p, q),
{
    let names = item_names(old.items@);
    let on = names_of(old.items@);
    if old.len() == 0 {
        assert(new.items@ =~= old.items@);
    } else {
        assert(string_views(names) =~= on);
        assert forall|k: int| 0 <= k < on.len() implies string_views(names).contains(#[trigger] on[k]) by {
            assert(string_views(names)[k] == on[k]);
        }
        lemma_kept_all(on, string_views(names), 0);
        assert forall|t: int| 0 <= t < names.len() implies on.contains(#[trigger] names[t]@) by {
            assert(on[t] == names[t]@);
        }
        lemma_added_none(on, names);
        let keep = kept_indices(on, string_views(names));
        assert(keep.len() == old.len());
        assert forall|p: int| 0 <= p < old.len() implies #[trigger] new.items@[p] == old.items@[p] by {
            assert(keep[p] == p);
        }
        assert(new.items@ =~= old.items@);
        assert forall|p: int, q: int| 0 <= p < old.len() && 0 <= q < old.len() implies #[trigger] new.compared(p, q) == old.compared(p, q) by {
            assert(keep[p] == p);
            assert(keep[q] == q);
        }
        assert forall|p: int, q: int| 0 <= p < old.len() && 0 <= q < old.len() implies #[trigger] new.won(p, q) == old.won(p, q) by {
            assert(keep[p] == p);
            assert(keep[q] == q);
        }
    }
}

/// Masks with no set bit at or past `n` have at most `n` set bits each, so at
/// most `n` times their number in all.
proof fn lemma_total_ones_bounded(vs: Seq<Seq<u8>>, n: int)
    requires
        0 <= n,
        forall|i: int, k: int| 0 <= i < vs.len() && n <= k ==> !#[trigger] mask_bit(vs[i], k),
    ensures
        total_ones(vs) <= vs.len() * n,
    decreases vs.len(),
{
    if vs.len() > 0 {
        let l = vs.len() - 1;
        assert forall|i: int, k: int| 0 <= i < l && n <= k implies !#[trigger] mask_bit(vs.drop_last()[i], k) by {
            assert(vs.drop_last()[i] == vs[i]);
        }
        lemma_total_ones_bounded(vs.drop_last(), n);
        assert forall|k: int| n <= k implies !#[trigger] mask_bit(vs[l], k) by {}
        crate::bitmask::lemma_ones_bounded(vs[l], n);
        assert(l * n + n == (l + 1) * n) by (nonlinear_arith);
    }
}

/// The count of rated pairs never passes the number of pairs: a well-formed
/// project whose counters agree with its matrices has rated at most every pair.
pub proof fn law_rated_within_total(p: Project)
    requires
        p.well_formed(),
        p.counts_agree(),
    ensures
        p.num_rated_items <= p.total_ratings,
{
    let n = p.len();
    let vs = mask_views(p.bitmasks@);
    assert forall|i: int, k: int| 0 <= i < vs.len() && n <= k implies !#[trigger] mask_bit(vs[i], k) by {
        assert(vs[i] == p.bitmasks@[i]@);
    }
    lemma_total_ones_bounded(vs, n);
    assert(vs.len() == n);
    let t = total_ones(vs) as int;
    assert(t <= n * n);
    assert((t - n) / 2 <= (n * n - n) / 2) by (nonlinear_arith)
        requires
            t <= n * n,
    ;
}

} // verus!
