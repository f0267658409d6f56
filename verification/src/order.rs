//! The two supported orderings of a track's sector sequence: by logical
//! sector number (the intended interleave order) and by physical file offset
//! (the decode order). Both reorderings keep the sector multiset, so neither
//! loses information and each can be recovered from the other.

use vstd::prelude::*;

use crate::disk::{Sector, Track};

verus! {

/// The key a reordering sorts on: the physical file offset, or the logical
/// sector number (R) widened to the same type.
pub open spec fn sort_key(by_offset: bool, x: Sector) -> u64 {
    if by_offset {
        x.offset
    } else {
        x.header.sector as u64
    }
}

/// Sorted (non-strictly) under the chosen key.
pub open spec fn sorted_by_key(by_offset: bool, s: Seq<Sector>) -> bool {
    forall|a: int, b: int|
        #![trigger s[a], s[b]]
        0 <= a < b < s.len() ==> sort_key(by_offset, s[a]) <= sort_key(by_offset, s[b])
}

/// Sorted by logical sector number.
pub open spec fn sorted_by_sector(s: Seq<Sector>) -> bool {
    sorted_by_key(false, s)
}

/// Sorted by physical file offset.
pub open spec fn sorted_by_offset(s: Seq<Sector>) -> bool {
    sorted_by_key(true, s)
}

/// Sorted by strictly increasing file offset, as a decoded track is.
pub open spec fn strictly_sorted_by_offset(s: Seq<Sector>) -> bool {
    forall|a: int, b: int|
        #![trigger s[a], s[b]]
        0 <= a < b < s.len() ==> s[a].offset < s[b].offset
}

/// The subsequence of sectors whose key is `c`, in their current order.
/// Stability of a reordering says this subsequence is unchanged for every
/// key.
pub open spec fn key_filter(by_offset: bool, s: Seq<Sector>, c: u64) -> Seq<Sector> {
    s.filter(|x: Sector| sort_key(by_offset, x) == c)
}

/// Filtering a single sector keeps it exactly when its key matches.
proof fn lemma_key_filter_singleton(by_offset: bool, x: Sector, c: u64)
    ensures
        key_filter(by_offset, seq![x], c) == (if sort_key(by_offset, x) == c {
            seq![x]
        } else {
            Seq::<Sector>::empty()
        }),
{
    reveal_with_fuel(Seq::<_>::filter, 2);
    assert(seq![x].drop_last() =~= Seq::<Sector>::empty());
    if sort_key(by_offset, x) == c {
        assert(key_filter(by_offset, seq![x], c) =~= seq![x]);
    } else {
        assert(key_filter(by_offset, seq![x], c) =~= Seq::<Sector>::empty());
    }
}

/// A sequence none of whose keys is `c` filters to nothing.
proof fn lemma_key_filter_none(by_offset: bool, s: Seq<Sector>, c: u64)
    requires
        forall|j: int| 0 <= j < s.len() ==> sort_key(by_offset, #[trigger] s[j]) != c,
    ensures
        key_filter(by_offset, s, c) == Seq::<Sector>::empty(),
    decreases s.len(),
{
    reveal_with_fuel(Seq::<_>::filter, 2);
    if s.len() == 0 {
        assert(key_filter(by_offset, s, c) =~= Seq::<Sector>::empty());
    } else {
        lemma_key_filter_none(by_offset, s.drop_last(), c);
    }
}

/// Moving one sector left past strictly greater keys leaves the subsequence
/// of every key unchanged.
proof fn lemma_sort_step_stable(by_offset: bool, u: Seq<Sector>, i: int, p: int)
    requires
        0 <= p < i < u.len(),
        forall|k: int|
            p <= k < i ==> sort_key(by_offset, #[trigger] u[k]) > sort_key(by_offset, u[i]),
    ensures
        forall|c: u64|
            #[trigger] key_filter(by_offset, u.remove(i).insert(p, u[i]), c) == key_filter(
                by_offset,
                u,
                c,
            ),
{
    broadcast use vstd::seq_lib::group_seq_lib_default;

    let x = u[i];
    let a = u.subrange(0, p);
    let b = u.subrange(p, i);
    let t = u.subrange(i + 1, u.len() as int);
    let w = u.remove(i).insert(p, x);
    assert(u =~= a + b + seq![x] + t);
    assert(w =~= a + seq![x] + b + t);
    assert forall|c: u64|
        #[trigger] key_filter(by_offset, w, c) == key_filter(by_offset, u, c) by {
        assert(key_filter(by_offset, a + b + seq![x] + t, c) == key_filter(
            by_offset,
            a + b + seq![x],
            c,
        ) + key_filter(by_offset, t, c));
        assert(key_filter(by_offset, a + b + seq![x], c) == key_filter(by_offset, a + b, c)
            + key_filter(by_offset, seq![x], c));
        assert(key_filter(by_offset, a + b, c) == key_filter(by_offset, a, c) + key_filter(
            by_offset,
            b,
            c,
        ));
        assert(key_filter(by_offset, a + seq![x] + b + t, c) == key_filter(
            by_offset,
            a + seq![x] + b,
            c,
        ) + key_filter(by_offset, t, c));
        assert(key_filter(by_offset, a + seq![x] + b, c) == key_filter(by_offset, a + seq![x], c)
            + key_filter(by_offset, b, c));
        assert(key_filter(by_offset, a + seq![x], c) == key_filter(by_offset, a, c) + key_filter(
            by_offset,
            seq![x],
            c,
        ));
        if sort_key(by_offset, x) == c {
            assert forall|j: int| 0 <= j < b.len() implies sort_key(by_offset, #[trigger] b[j])
                != c by {
                assert(b[j] == u[p + j]);
            }
            lemma_key_filter_none(by_offset, b, c);
            assert(key_filter(by_offset, w, c) =~= key_filter(by_offset, u, c));
        } else {
            lemma_key_filter_singleton(by_offset, x, c);
            assert(key_filter(by_offset, w, c) =~= key_filter(by_offset, u, c));
        }
    }
}

/// Reads the sort key of one sector.
fn key_of(by_offset: bool, x: &Sector) -> (k: u64)
    ensures
        k == sort_key(by_offset, *x),
{
    if by_offset {
        x.offset
    } else {
        x.header.sector as u64
    }
}

/// Stable insertion sort of a sector sequence under the chosen key: the
/// result is sorted and holds exactly the sectors it started with.
fn sort_sectors(by_offset: bool, v: &mut Vec<Sector>)
    ensures
        final(v)@.len() == old(v)@.len(),
        final(v)@.to_multiset() == old(v)@.to_multiset(),
        sorted_by_key(by_offset, final(v)@),
        forall|c: u64|
            #[trigger] key_filter(by_offset, final(v)@, c) == key_filter(by_offset, old(v)@, c),
{
    broadcast use vstd::seq_lib::group_to_multiset_ensures;
    broadcast use vstd::multiset::group_multiset_axioms;

    let n: usize = v.len();
    if n <= 1 {
        return ;
    }
    let mut i: usize = 1;
    while i < v.len()
        invariant
            1 <= i <= v@.len(),
            v@.len() == old(v)@.len(),
            v@.to_multiset() == old(v)@.to_multiset(),
            forall|c: u64|
                #[trigger] key_filter(by_offset, v@, c) == key_filter(by_offset, old(v)@, c),
            forall|a: int, b: int|
                #![trigger v@[a], v@[b]]
                0 <= a < b < i ==> sort_key(by_offset, v@[a]) <= sort_key(by_offset, v@[b]),
        decreases v@.len() - i,
    {
        let key: u64 = key_of(by_offset, &v[i]);
        let mut p: usize = i;
        while p > 0 && key_of(by_offset, &v[p - 1]) > key
            invariant
                p <= i,
                i < v@.len(),
                key == sort_key(by_offset, v@[i as int]),
                forall|k: int| p <= k < i ==> sort_key(by_offset, #[trigger] v@[k]) > key,
            decreases p,
        {
            p = p - 1;
        }
        if p < i {
            let ghost u = v@;
            let x = v.remove(i);
            v.insert(p, x);
            proof {
                let m = u.remove(i as int);
                let w = m.insert(p as int, x);
                assert(v@ == w);
                u.remove_ensures(i as int);
                m.insert_ensures(p as int, x);
                vstd::seq_lib::to_multiset_remove(u, i as int);
                vstd::seq_lib::to_multiset_insert(m, p as int, x);
                vstd::seq_lib::to_multiset_contains(u, x);
                assert(u.contains(u[i as int]));
                assert(u.to_multiset().count(x) > 0);
                assert(m.to_multiset() == u.to_multiset().remove(x));
                assert(u.to_multiset().remove(x).insert(x) =~= u.to_multiset());
                assert(v@.to_multiset() == old(v)@.to_multiset());
                lemma_sort_step_stable(by_offset, u, i as int, p as int);
                assert(forall|c: u64|
                    #[trigger] key_filter(by_offset, v@, c) == key_filter(by_offset, old(v)@, c));
                assert forall|a: int, b: int|
                    0 <= a < b < i + 1 implies sort_key(by_offset, w[a]) <= sort_key(
                    by_offset,
                    w[b],
                ) by {
                    if b < p {
                        assert(w[a] == u[a] && w[b] == u[b]);
                    } else if b == p {
                        assert(w[b] == x);
                        assert(w[a] == u[a]);
                        assert(sort_key(by_offset, u[p - 1]) <= key);
                        if a < p - 1 {
                            assert(sort_key(by_offset, u[a]) <= sort_key(by_offset, u[p - 1]));
                        }
                    } else {
                        assert(w[b] == m[b - 1] && m[b - 1] == u[b - 1]);
                        assert(sort_key(by_offset, u[b - 1]) > key);
                        if a == p {
                            assert(w[a] == x);
                        } else if a < p {
                            assert(w[a] == u[a]);
                            if a < p - 1 {
                                assert(sort_key(by_offset, u[a]) <= sort_key(
                                    by_offset,
                                    u[p - 1],
                                ));
                            }
                            assert(p == 0 || sort_key(by_offset, u[p - 1]) <= key);
                        } else {
                            assert(w[a] == m[a - 1] && m[a - 1] == u[a - 1]);
                        }
                    }
                }
            }
        }
        i = i + 1;
    }
}

impl Track {
    /// Reorders the sector sequence by logical sector number (R), the
    /// intended interleave order. Non-destructive: the sectors themselves and
    /// their multiset are unchanged.
    pub fn sector_sort(&mut self)
        ensures
            final(self).number_of_sector == old(self).number_of_sector,
            final(self).sector_tbl@.len() == old(self).sector_tbl@.len(),
            final(self).sector_tbl@.to_multiset() == old(self).sector_tbl@.to_multiset(),
            sorted_by_sector(final(self).sector_tbl@),
            forall|c: u64|
                #[trigger] key_filter(false, final(self).sector_tbl@, c) == key_filter(
                    false,
                    old(self).sector_tbl@,
                    c,
                ),
    {
        sort_sectors(false, &mut self.sector_tbl);
    }

    /// Reorders the sector sequence by physical file offset, restoring decode
    /// order. Non-destructive: the sectors themselves and their multiset are
    /// unchanged.
    pub fn file_offset_sort(&mut self)
        ensures
            final(self).number_of_sector == old(self).number_of_sector,
            final(self).sector_tbl@.len() == old(self).sector_tbl@.len(),
            final(self).sector_tbl@.to_multiset() == old(self).sector_tbl@.to_multiset(),
            sorted_by_offset(final(self).sector_tbl@),
            forall|c: u64|
                #[trigger] key_filter(true, final(self).sector_tbl@, c) == key_filter(
                    true,
                    old(self).sector_tbl@,
                    c,
                ),
    {
        sort_sectors(true, &mut self.sector_tbl);
    }
}

/// A sequence of sectors with strictly increasing offsets is the only
/// offset-sorted arrangement of its sectors: any offset-sorted sequence with
/// the same multiset is the sequence itself. Sorting a shuffled track by
/// file offset therefore returns it to its decode order.
pub proof fn lemma_offset_sort_unique(x: Seq<Sector>, y: Seq<Sector>)
    requires
        strictly_sorted_by_offset(x),
        y.to_multiset() == x.to_multiset(),
        sorted_by_offset(y),
    ensures
        y == x,
    decreases x.len(),
{
    broadcast use vstd::seq_lib::group_to_multiset_ensures;
    broadcast use vstd::multiset::group_multiset_axioms;

    vstd::seq_lib::to_multiset_len(x);
    vstd::seq_lib::to_multiset_len(y);
    assert(y.len() == x.len());
    if x.len() == 0 {
        assert(y =~= x);
    } else {
        vstd::seq_lib::to_multiset_contains(x, y[0]);
        vstd::seq_lib::to_multiset_contains(y, y[0]);
        vstd::seq_lib::to_multiset_contains(x, x[0]);
        vstd::seq_lib::to_multiset_contains(y, x[0]);
        assert(y.contains(y[0]));
        assert(x.to_multiset().contains(y[0]));
        assert(x.contains(y[0]));
        let j = choose|j: int| 0 <= j < x.len() && x[j] == y[0];
        assert(x.contains(x[0]));
        assert(y.to_multiset().contains(x[0]));
        assert(y.contains(x[0]));
        let k = choose|k: int| 0 <= k < y.len() && y[k] == x[0];
        assert(x[0].offset <= x[j].offset);
        assert(y[0].offset <= y[k].offset);
        assert(x[0].offset == y[0].offset);
        assert(j == 0);
        assert(y[0] == x[0]);
        let xt = x.drop_first();
        let yt = y.drop_first();
        vstd::seq_lib::to_multiset_remove(x, 0);
        vstd::seq_lib::to_multiset_remove(y, 0);
        assert(x.remove(0) =~= xt);
        assert(y.remove(0) =~= yt);
        assert(xt.to_multiset() == x.to_multiset().remove(x[0]));
        assert(yt.to_multiset() == y.to_multiset().remove(y[0]));
        assert(yt.to_multiset() == xt.to_multiset());
        assert(strictly_sorted_by_offset(xt)) by {
            assert(forall|a: int|
                0 <= a < xt.len() ==> #[trigger] xt[a] == x[a + 1]);
        }
        assert(sorted_by_offset(yt)) by {
            assert(forall|a: int|
                0 <= a < yt.len() ==> #[trigger] yt[a] == y[a + 1]);
        }
        lemma_offset_sort_unique(xt, yt);
        assert(y =~= x) by {
            assert(forall|a: int| 1 <= a < x.len() ==> #[trigger] x[a] == xt[a - 1]);
            assert(forall|a: int| 1 <= a < y.len() ==> #[trigger] y[a] == yt[a - 1]);
        }
    }
}

} // verus!
