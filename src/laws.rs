//! What holds of every run: stated over the models of the engine and proved.
use vstd::prelude::*;
use crate::config::SortConfig;
use crate::core_sort::{
    dedup, dedup_prefix, in_bounds, is_perm, no_equal_neighbours, ordered, range_seq,
    records_sorted, sorted_order, stable_ties,
};
use crate::keys::{
    base_cmp, key_cmp, key_collation, keys_cmp, lemma_record_cmp_antisym, record_cmp, sep_byte,
};
use crate::simd_compare::{flip, lemma_lex_cmp_equal, lex_cmp};
use crate::total_order::{le, lemma_record_cmp_preorder};
use crate::zero_copy::{lemma_term_pos_bounds, pick, records_from, render, term_pos};

verus! {

broadcast use vstd::seq_lib::group_to_multiset_ensures, vstd::multiset::group_multiset_axioms;

proof fn lemma_pick_multiset(rs: Seq<Seq<u8>>, s1: Seq<usize>, s2: Seq<usize>)
    requires
        s1.to_multiset() == s2.to_multiset(),
    ensures
        pick(rs, s1).to_multiset() == pick(rs, s2).to_multiset(),
    decreases s1.len(),
{
    s1.to_multiset_ensures();
    s2.to_multiset_ensures();
    if s1.len() == 0 {
        assert(s2.len() == 0);
        assert(pick(rs, s1) =~= pick(rs, s2));
    } else {
        let x = s1.last();
        let t1 = s1.drop_last();
        assert(s1 =~= t1.push(x));
        t1.to_multiset_ensures();
        assert(s2.to_multiset().count(x) > 0);
        assert(s2.contains(x));
        let j = choose|j: int| 0 <= j < s2.len() && s2[j] == x;
        let t2 = s2.remove(j);
        assert(t1.to_multiset() =~= s1.to_multiset().remove(x));
        assert(t2.to_multiset() =~= s2.to_multiset().remove(x));
        lemma_pick_multiset(rs, t1, t2);
        let picked1 = pick(rs, s1);
        let picked2 = pick(rs, s2);
        assert(picked1 =~= pick(rs, t1).push(rs[x as int]));
        pick(rs, t1).to_multiset_ensures();
        assert(picked2.remove(j) =~= pick(rs, t2));
        picked2.to_multiset_ensures();
        assert(picked2[j] == rs[x as int]);
        assert(pick(rs, t2).to_multiset() =~= picked2.to_multiset().remove(rs[x as int]));
        assert(picked2.to_multiset().count(rs[x as int]) > 0) by {
            assert(picked2.contains(rs[x as int]));
        }
        assert(picked1.to_multiset() =~= picked2.to_multiset());
    }
}

/// A sorted order holds every record exactly as often as the input does.
pub proof fn lemma_sorted_order_keeps_records(c: SortConfig, rs: Seq<Seq<u8>>, ord: Seq<usize>)
    requires
        sorted_order(c, rs, ord),
        rs.len() <= usize::MAX,
    ensures
        pick(rs, ord).to_multiset() == rs.to_multiset(),
{
    lemma_pick_multiset(rs, ord, range_seq(0, rs.len() as int));
    assert(pick(rs, range_seq(0, rs.len() as int)) =~= rs);
}

/// After dropping every record equal to the one kept before it, no two
/// neighbours are equal.
pub proof fn lemma_dedup_no_equal_neighbours(c: SortConfig, rs: Seq<Seq<u8>>, ord: Seq<usize>, n: int)
    requires
        0 <= n <= ord.len(),
    ensures
        no_equal_neighbours(c, rs, dedup_prefix(c, rs, ord, n)),
    decreases n,
{
    if n > 0 {
        lemma_dedup_no_equal_neighbours(c, rs, ord, n - 1);
        let p = dedup_prefix(c, rs, ord, n - 1);
        let q = dedup_prefix(c, rs, ord, n);
        if !(p.len() > 0 && record_cmp(c, rs[p.last() as int], rs[ord[n - 1] as int]) is Equal) {
            assert(q == p.push(ord[n - 1]));
            assert forall|k: int| 0 <= k < q.len() - 1 implies !(#[trigger] record_cmp(
                c,
                rs[q[k] as int],
                rs[q[k + 1] as int],
            ) is Equal) by {
                if k < p.len() - 1 {
                    assert(q[k] == p[k] && q[k + 1] == p[k + 1]);
                } else {
                    assert(q[k] == p.last());
                }
            }
        }
    }
}

/// The configuration with the global reverse switched.
pub open spec fn reversed(c: SortConfig) -> SortConfig {
    SortConfig { reverse: !c.reverse, ..c }
}

/// Switching the global reverse flips every comparison.
pub proof fn lemma_reverse_flips(c: SortConfig, a: Seq<u8>, b: Seq<u8>)
    ensures
        record_cmp(reversed(c), a, b) == flip(record_cmp(c, a, b)),
{
    lemma_keys_cmp_ignores_reverse(c, a, b, 0);
    assert(base_cmp(reversed(c), a, b) == base_cmp(c, a, b));
    reveal(record_cmp);
}

proof fn lemma_keys_cmp_ignores_reverse(c: SortConfig, a: Seq<u8>, b: Seq<u8>, i: int)
    ensures
        keys_cmp(reversed(c), a, b, i) == keys_cmp(c, a, b, i),
    decreases c.keys@.len() - i,
{
    if 0 <= i < c.keys@.len() {
        let k = c.keys@[i];
        assert(key_collation(reversed(c), k) == key_collation(c, k));
        assert(sep_byte(reversed(c)) == sep_byte(c));
        assert(key_cmp(reversed(c), k, a, b) == key_cmp(c, k, a, b));
        lemma_keys_cmp_ignores_reverse(c, a, b, i + 1);
    }
}

/// Read backwards, a sorted order is an order of the same
/// records that is non-decreasing under the reversed comparator (among equal records
/// the input order is then reversed too).
pub proof fn lemma_reverse_of_sorted_order(c: SortConfig, rs: Seq<Seq<u8>>, ord: Seq<usize>)
    requires
        sorted_order(c, rs, ord),
    ensures
        is_perm(ord.reverse(), rs.len()),
        ordered(reversed(c), rs, ord.reverse()),
{
    let r = ord.reverse();
    let n = ord.len() as int;
    assert forall|k: int| 0 <= k < r.len() - 1 implies !(#[trigger] record_cmp(
        reversed(c),
        rs[r[k] as int],
        rs[r[k + 1] as int],
    ) is Greater) by {
        let j = n - 2 - k;
        assert(r[k] == ord[j + 1] && r[k + 1] == ord[j]);
        assert(!(record_cmp(c, rs[ord[j] as int], rs[ord[j + 1] as int]) is Greater));
        lemma_record_cmp_antisym(c, rs[ord[j] as int], rs[ord[j + 1] as int]);
        lemma_reverse_flips(c, rs[r[k] as int], rs[r[k + 1] as int]);
    }
    lemma_reverse_multiset(ord);
}

proof fn lemma_reverse_multiset(s: Seq<usize>)
    ensures
        s.reverse().to_multiset() == s.to_multiset(),
    decreases s.len(),
{
    if s.len() > 0 {
        let t = s.drop_first();
        lemma_reverse_multiset(t);
        assert(s.reverse() =~= t.reverse().push(s[0]));
        t.reverse().to_multiset_ensures();
        assert(s =~= seq![s[0]] + t);
        vstd::seq_lib::lemma_multiset_commutative(seq![s[0]], t);
        assert(seq![s[0]].to_multiset() =~= vstd::multiset::Multiset::empty().insert(s[0])) by {
            assert(seq![s[0]] =~= Seq::<usize>::empty().push(s[0]));
            Seq::<usize>::empty().to_multiset_ensures();
        }
        assert(s.reverse().to_multiset() =~= s.to_multiset());
    }
}

/// Input that passes the check is, in its own order, a sorted
/// order, and it is the order that sorting keeps.
pub proof fn lemma_checked_input_is_sorted_order(c: SortConfig, rs: Seq<Seq<u8>>)
    requires
        records_sorted(c, rs),
        rs.len() <= usize::MAX,
    ensures
        sorted_order(c, rs, range_seq(0, rs.len() as int)),
{
    let r = range_seq(0, rs.len() as int);
    assert forall|k: int| 0 <= k < r.len() - 1 implies !(#[trigger] record_cmp(
        c,
        rs[r[k] as int],
        rs[r[k + 1] as int],
    ) is Greater) && (record_cmp(c, rs[r[k] as int], rs[r[k + 1] as int]) is Equal ==> r[k] < r[k + 1]) by {
        assert(r[k] == k && r[k + 1] == k + 1);
        assert(!(record_cmp(c, rs[k], rs[k + 1]) is Greater));
    }
}

/// Without keys the field separator plays no part: records compare as whole records.
pub proof fn lemma_separator_unused_without_keys(c: SortConfig, a: Seq<u8>, b: Seq<u8>)
    requires
        c.keys@.len() == 0,
    ensures
        record_cmp(c, a, b) == record_cmp(SortConfig { field_separator: None, ..c }, a, b),
{
    reveal(record_cmp);
}

/// Records hold no terminator byte: with NUL as terminator a newline is an ordinary
/// byte of a record, and each record is a piece of the input between terminators.
pub proof fn lemma_records_exclude_terminator(s: Seq<u8>, t: u8, i: int)
    requires
        0 <= i <= s.len(),
    ensures
        forall|k: int, m: int|
            0 <= k < records_from(s, t, i).len() && 0 <= m < records_from(s, t, i)[k].len()
                ==> records_from(s, t, i)[k][m] != t,
    decreases s.len() - i,
{
    if i < s.len() {
        let e = term_pos(s, t, i);
        lemma_term_pos_bounds(s, t, i);
        if e < s.len() {
            lemma_records_exclude_terminator(s, t, e + 1);
            let rest = records_from(s, t, e + 1);
            assert(records_from(s, t, i) == seq![s.subrange(i, e)] + rest);
            assert forall|k: int, m: int|
                0 <= k < records_from(s, t, i).len() && 0 <= m < records_from(s, t, i)[k].len()
                    implies records_from(s, t, i)[k][m] != t by {
                if k > 0 {
                    assert(records_from(s, t, i)[k] == rest[k - 1]);
                } else {
                    assert(records_from(s, t, i)[k][m] == s[i + m]);
                }
            }
        } else {
            assert forall|k: int, m: int|
                0 <= k < records_from(s, t, i).len() && 0 <= m < records_from(s, t, i)[k].len()
                    implies records_from(s, t, i)[k][m] != t by {
                assert(records_from(s, t, i)[k][m] == s[i + m]);
            }
        }
    }
}


/// Without stable or unique output only identical records compare equal, so the
/// order among equal records cannot be seen in the output.
pub proof fn lemma_equal_means_identical(c: SortConfig, a: Seq<u8>, b: Seq<u8>)
    requires
        !c.stable,
        !c.unique,
        record_cmp(c, a, b) is Equal,
    ensures
        a == b,
{
    reveal(record_cmp);
    assert(lex_cmp(a, b) is Equal);
    assert(a.subrange(0, 0) =~= b.subrange(0, 0));
    lemma_lex_cmp_equal(a, b, 0);
}


/// In a non-decreasing order every record is not greater than any later one.
pub proof fn lemma_ordered_pairs(c: SortConfig, rs: Seq<Seq<u8>>, ord: Seq<usize>, p: int, q: int)
    requires
        ordered(c, rs, ord),
        in_bounds(rs, ord),
        0 <= p <= q < ord.len(),
    ensures
        le(record_cmp(c, rs[ord[p] as int], rs[ord[q] as int])),
    decreases q - p,
{
    if p < q {
        lemma_ordered_pairs(c, rs, ord, p, q - 1);
        let m = q - 1;
        assert(le(record_cmp(c, rs[ord[m] as int], rs[ord[m + 1] as int])));
        lemma_record_cmp_preorder(c, rs[ord[p] as int], rs[ord[q - 1] as int], rs[ord[q] as int]);
    } else {
        lemma_record_cmp_antisym(c, rs[ord[p] as int], rs[ord[p] as int]);
    }
}

/// In a sorted order that keeps ties in input order, any two records that
/// compare equal (neighbours or not) keep their input order.
pub proof fn lemma_stable_pairs(c: SortConfig, rs: Seq<Seq<u8>>, ord: Seq<usize>, p: int, q: int)
    requires
        ordered(c, rs, ord),
        stable_ties(c, rs, ord),
        in_bounds(rs, ord),
        0 <= p < q < ord.len(),
        record_cmp(c, rs[ord[p] as int], rs[ord[q] as int]) is Equal,
    ensures
        ord[p] < ord[q],
    decreases q - p,
{
    let (x, y, z) = (rs[ord[p] as int], rs[ord[p + 1] as int], rs[ord[q] as int]);
    assert(le(record_cmp(c, x, y)));
    lemma_ordered_pairs(c, rs, ord, p + 1, q);
    lemma_record_cmp_preorder(c, x, y, z);
    assert(record_cmp(c, x, y) is Equal);
    assert(ord[p] < ord[p + 1]);
    if p + 1 < q {
        lemma_stable_pairs(c, rs, ord, p + 1, q);
    }
}

/// Two non-decreasing sequences of the same records, in which equal records are
/// identical, are the same sequence.
proof fn lemma_ordered_records_unique(c: SortConfig, s1: Seq<Seq<u8>>, s2: Seq<Seq<u8>>)
    requires
        !c.stable,
        !c.unique,
        s1.to_multiset() == s2.to_multiset(),
        forall|k: int| 0 <= k < s1.len() - 1 ==> le(#[trigger] record_cmp(c, s1[k], s1[k + 1])),
        forall|k: int| 0 <= k < s2.len() - 1 ==> le(#[trigger] record_cmp(c, s2[k], s2[k + 1])),
    ensures
        s1 == s2,
    decreases s1.len(),
{
    s1.to_multiset_ensures();
    s2.to_multiset_ensures();
    if s1.len() == 0 {
        assert(s2.len() == 0);
        assert(s1 =~= s2);
    } else {
        let x = s1[0];
        let y = s2[0];
        assert(s2.to_multiset().count(x) > 0);
        assert(s2.contains(x));
        let q2 = choose|q: int| 0 <= q < s2.len() && s2[q] == x;
        assert(s2.contains(y));
        assert(s2.to_multiset().count(y) > 0);
        assert(s1.contains(y));
        let q1 = choose|q: int| 0 <= q < s1.len() && s1[q] == y;
        lemma_seq_ordered_pairs(c, s1, 0, q1);
        lemma_seq_ordered_pairs(c, s2, 0, q2);
        lemma_record_cmp_antisym(c, x, y);
        assert(record_cmp(c, x, y) is Equal);
        lemma_equal_means_identical(c, x, y);
        let t1 = s1.drop_first();
        let t2 = s2.drop_first();
        assert(s1.remove(0) =~= t1);
        assert(s2.remove(0) =~= t2);
        assert(t1.to_multiset() =~= t2.to_multiset());
        assert forall|k: int| 0 <= k < t1.len() - 1 implies le(#[trigger] record_cmp(c, t1[k], t1[k + 1])) by {
            assert(t1[k] == s1[k + 1] && t1[k + 1] == s1[k + 2]);
        }
        assert forall|k: int| 0 <= k < t2.len() - 1 implies le(#[trigger] record_cmp(c, t2[k], t2[k + 1])) by {
            assert(t2[k] == s2[k + 1] && t2[k + 1] == s2[k + 2]);
        }
        lemma_ordered_records_unique(c, t1, t2);
        assert(s1 =~= seq![x] + t1);
        assert(s2 =~= seq![y] + t2);
    }
}

proof fn lemma_seq_ordered_pairs(c: SortConfig, s: Seq<Seq<u8>>, p: int, q: int)
    requires
        forall|k: int| 0 <= k < s.len() - 1 ==> le(#[trigger] record_cmp(c, s[k], s[k + 1])),
        0 <= p <= q < s.len(),
    ensures
        le(record_cmp(c, s[p], s[q])),
    decreases q - p,
{
    if p < q {
        lemma_seq_ordered_pairs(c, s, p, q - 1);
        let m = q - 1;
        assert(le(record_cmp(c, s[m], s[m + 1])));
        lemma_record_cmp_preorder(c, s[p], s[q - 1], s[q]);
    } else {
        lemma_record_cmp_antisym(c, s[p], s[p]);
    }
}

/// Two sorted orders that keep ties in input order and name the same positions are
/// the same order.
proof fn lemma_stable_orders_unique(c: SortConfig, rs: Seq<Seq<u8>>, o1: Seq<usize>, o2: Seq<usize>)
    requires
        o1.to_multiset() == o2.to_multiset(),
        in_bounds(rs, o1),
        in_bounds(rs, o2),
        ordered(c, rs, o1),
        ordered(c, rs, o2),
        stable_ties(c, rs, o1),
        stable_ties(c, rs, o2),
        forall|x: usize| #[trigger] o1.to_multiset().count(x) <= 1,
    ensures
        o1 == o2,
    decreases o1.len(),
{
    o1.to_multiset_ensures();
    o2.to_multiset_ensures();
    if o1.len() == 0 {
        assert(o2.len() == 0);
        assert(o1 =~= o2);
    } else {
        let x = o1[0];
        let y = o2[0];
        assert(o2.to_multiset().count(x) > 0);
        assert(o2.contains(x));
        let q2 = choose|q: int| 0 <= q < o2.len() && o2[q] == x;
        assert(o2.contains(y));
        assert(o2.to_multiset().count(y) > 0);
        assert(o1.contains(y));
        let q1 = choose|q: int| 0 <= q < o1.len() && o1[q] == y;
        if x != y {
            lemma_ordered_pairs(c, rs, o1, 0, q1);
            lemma_ordered_pairs(c, rs, o2, 0, q2);
            lemma_record_cmp_antisym(c, rs[x as int], rs[y as int]);
            assert(record_cmp(c, rs[x as int], rs[y as int]) is Equal);
            assert(q1 > 0 && q2 > 0);
            lemma_stable_pairs(c, rs, o1, 0, q1);
            lemma_record_cmp_antisym(c, rs[y as int], rs[x as int]);
            lemma_stable_pairs(c, rs, o2, 0, q2);
            assert(false);
        }
        let t1 = o1.drop_first();
        let t2 = o2.drop_first();
        assert(o1.remove(0) =~= t1);
        assert(o2.remove(0) =~= t2);
        assert(t1.to_multiset() =~= t2.to_multiset());
        assert forall|k: int| 0 <= k < t1.len() - 1 implies !(#[trigger] record_cmp(c, rs[t1[k] as int], rs[t1[k + 1] as int]) is Greater)
            && (record_cmp(c, rs[t1[k] as int], rs[t1[k + 1] as int]) is Equal ==> t1[k] < t1[k + 1]) by {
            assert(t1[k] == o1[k + 1] && t1[k + 1] == o1[k + 2]);
        }
        assert forall|k: int| 0 <= k < t2.len() - 1 implies !(#[trigger] record_cmp(c, rs[t2[k] as int], rs[t2[k + 1] as int]) is Greater)
            && (record_cmp(c, rs[t2[k] as int], rs[t2[k + 1] as int]) is Equal ==> t2[k] < t2[k + 1]) by {
            assert(t2[k] == o2[k + 1] && t2[k + 1] == o2[k + 2]);
        }
        assert forall|k: int| 0 <= k < t1.len() implies #[trigger] t1[k] < rs.len() by {
            assert(t1[k] == o1[k + 1]);
        }
        assert forall|k: int| 0 <= k < t2.len() implies #[trigger] t2[k] < rs.len() by {
            assert(t2[k] == o2[k + 1]);
        }
        assert forall|z: usize| #[trigger] t1.to_multiset().count(z) <= 1 by {
            assert(o1.to_multiset().count(z) <= 1);
        }
        lemma_stable_orders_unique(c, rs, t1, t2);
        assert(o1 =~= seq![x] + t1);
        assert(o2 =~= seq![y] + t2);
    }
}

/// A permutation of positions names each position once.
proof fn lemma_perm_counts(ord: Seq<usize>, n: nat)
    requires
        is_perm(ord, n),
        n <= usize::MAX,
    ensures
        forall|x: usize| #[trigger] ord.to_multiset().count(x) <= 1,
{
    assert forall|x: usize| #[trigger] ord.to_multiset().count(x) <= 1 by {
        lemma_range_count(0, n as int, x);
    }
}

proof fn lemma_range_count(lo: int, hi: int, x: usize)
    requires
        0 <= lo <= hi <= usize::MAX + 1,
    ensures
        range_seq(lo, hi).to_multiset().count(x) <= 1,
        range_seq(lo, hi).to_multiset().count(x) > 0 ==> lo <= x < hi,
    decreases hi - lo,
{
    let r = range_seq(lo, hi);
    r.to_multiset_ensures();
    if lo < hi {
        let t = range_seq(lo, hi - 1);
        t.to_multiset_ensures();
        assert(r =~= t.push((hi - 1) as usize));
        lemma_range_count(lo, hi - 1, x);
        assert(r.to_multiset() =~= t.to_multiset().insert((hi - 1) as usize));
        if x == (hi - 1) as usize {
            assert(t.to_multiset().count(x) == 0);
        }
    } else {
        assert(r =~= Seq::<usize>::empty());
    }
}

/// Any two sorted orders of the same records give the same
/// records in the same sequence (and, where ties keep input order, the same order).
pub proof fn lemma_sorted_orders_agree(c: SortConfig, rs: Seq<Seq<u8>>, o1: Seq<usize>, o2: Seq<usize>)
    requires
        sorted_order(c, rs, o1),
        sorted_order(c, rs, o2),
        rs.len() <= usize::MAX,
    ensures
        pick(rs, o1) == pick(rs, o2),
        c.stable || c.unique ==> o1 == o2,
{
    if c.stable || c.unique {
        lemma_perm_counts(o1, rs.len());
        lemma_stable_orders_unique(c, rs, o1, o2);
    } else {
        lemma_sorted_order_keeps_records(c, rs, o1);
        lemma_sorted_order_keeps_records(c, rs, o2);
        let (s1, s2) = (pick(rs, o1), pick(rs, o2));
        assert forall|k: int| 0 <= k < s1.len() - 1 implies le(#[trigger] record_cmp(c, s1[k], s1[k + 1])) by {
            assert(!(record_cmp(c, rs[o1[k] as int], rs[o1[k + 1] as int]) is Greater));
        }
        assert forall|k: int| 0 <= k < s2.len() - 1 implies le(#[trigger] record_cmp(c, s2[k], s2[k + 1])) by {
            assert(!(record_cmp(c, rs[o2[k] as int], rs[o2[k + 1] as int]) is Greater));
        }
        lemma_ordered_records_unique(c, s1, s2);
    }
}


/// Where neither stable nor unique output is asked for, the records
/// sorted with the global reverse are the records sorted without it, read backwards.
pub proof fn lemma_reversed_sort_reads_backwards(c: SortConfig, rs: Seq<Seq<u8>>, o: Seq<usize>, o_rev: Seq<usize>)
    requires
        !c.stable,
        !c.unique,
        rs.len() <= usize::MAX,
        sorted_order(c, rs, o),
        sorted_order(reversed(c), rs, o_rev),
    ensures
        pick(rs, o_rev) == pick(rs, o).reverse(),
{
    lemma_reverse_of_sorted_order(c, rs, o);
    assert(in_bounds(rs, o.reverse()));
    lemma_sorted_orders_agree(reversed(c), rs, o_rev, o.reverse());
    assert(pick(rs, o.reverse()) =~= pick(rs, o).reverse());
}

/// The last record kept by the dropping of equal neighbours is one of the first `n`.
proof fn lemma_dedup_last(c: SortConfig, rs: Seq<Seq<u8>>, ord: Seq<usize>, n: int)
    requires
        0 <= n <= ord.len(),
    ensures
        dedup_prefix(c, rs, ord, n).len() > 0 ==> exists|m: int|
            0 <= m < n && dedup_prefix(c, rs, ord, n).last() == ord[m],
        forall|k: int|
            0 <= k < dedup_prefix(c, rs, ord, n).len() ==> exists|m: int|
                0 <= m < n && #[trigger] dedup_prefix(c, rs, ord, n)[k] == ord[m],
    decreases n,
{
    if n > 0 {
        lemma_dedup_last(c, rs, ord, n - 1);
        let p = dedup_prefix(c, rs, ord, n - 1);
        let q = dedup_prefix(c, rs, ord, n);
        if q != p {
            assert(q == p.push(ord[n - 1]));
            assert forall|k: int| 0 <= k < q.len() implies exists|m: int| 0 <= m < n && #[trigger] q[k] == ord[m] by {
                if k < p.len() {
                    assert(q[k] == p[k]);
                    let m = choose|m: int| 0 <= m < n - 1 && p[k] == ord[m];
                    assert(0 <= m < n && q[k] == ord[m]);
                } else {
                    assert(q[k] == ord[n - 1]);
                }
            }
        }
    }
}

/// Dropping equal neighbours keeps the records in order.
pub proof fn lemma_dedup_ordered(c: SortConfig, rs: Seq<Seq<u8>>, ord: Seq<usize>, n: int)
    requires
        ordered(c, rs, ord),
        in_bounds(rs, ord),
        0 <= n <= ord.len(),
    ensures
        ordered(c, rs, dedup_prefix(c, rs, ord, n)),
        in_bounds(rs, dedup_prefix(c, rs, ord, n)),
    decreases n,
{
    if n > 0 {
        lemma_dedup_ordered(c, rs, ord, n - 1);
        lemma_dedup_last(c, rs, ord, n - 1);
        lemma_dedup_last(c, rs, ord, n);
        let p = dedup_prefix(c, rs, ord, n - 1);
        let q = dedup_prefix(c, rs, ord, n);
        if q != p {
            assert(q == p.push(ord[n - 1]));
            if p.len() > 0 {
                let m = choose|m: int| 0 <= m < n - 1 && p.last() == ord[m];
                lemma_ordered_pairs(c, rs, ord, m, n - 1);
            }
            assert forall|k: int| 0 <= k < q.len() - 1 implies !(#[trigger] record_cmp(c, rs[q[k] as int], rs[q[k + 1] as int]) is Greater) by {
                if k < p.len() - 1 {
                    assert(q[k] == p[k] && q[k + 1] == p[k + 1]);
                } else {
                    assert(q[k] == p.last());
                }
            }
            assert forall|k: int| 0 <= k < q.len() implies #[trigger] q[k] < rs.len() by {
                if k < p.len() {
                    assert(q[k] == p[k]);
                }
            }
        }
    }
}

/// The options that the comparator reads are the same in both configurations.
pub open spec fn same_comparison(c1: SortConfig, c2: SortConfig) -> bool {
    &&& c1.mode == c2.mode && c1.reverse == c2.reverse && c1.unique == c2.unique
    &&& c1.stable == c2.stable && c1.ignore_case == c2.ignore_case
    &&& c1.dictionary_order == c2.dictionary_order
    &&& c1.ignore_leading_blanks == c2.ignore_leading_blanks
    &&& c1.field_separator == c2.field_separator && c1.keys@ == c2.keys@
    &&& c1.random_salt == c2.random_salt && c1.zero_terminated == c2.zero_terminated
}

proof fn lemma_keys_cmp_same(c1: SortConfig, c2: SortConfig, a: Seq<u8>, b: Seq<u8>, i: int)
    requires
        same_comparison(c1, c2),
    ensures
        keys_cmp(c1, a, b, i) == keys_cmp(c2, a, b, i),
    decreases c1.keys@.len() - i,
{
    if 0 <= i < c1.keys@.len() {
        let k = c1.keys@[i];
        assert(key_collation(c1, k) == key_collation(c2, k));
        assert(sep_byte(c1) == sep_byte(c2));
        assert(key_cmp(c1, k, a, b) == key_cmp(c2, k, a, b));
        lemma_keys_cmp_same(c1, c2, a, b, i + 1);
    }
}

proof fn lemma_record_cmp_same(c1: SortConfig, c2: SortConfig, a: Seq<u8>, b: Seq<u8>)
    requires
        same_comparison(c1, c2),
    ensures
        record_cmp(c1, a, b) == record_cmp(c2, a, b),
{
    lemma_keys_cmp_same(c1, c2, a, b, 0);
    assert(base_cmp(c1, a, b) == base_cmp(c2, a, b));
    reveal(record_cmp);
}

proof fn lemma_dedup_same(c1: SortConfig, c2: SortConfig, rs: Seq<Seq<u8>>, ord: Seq<usize>, n: int)
    requires
        same_comparison(c1, c2),
    ensures
        dedup_prefix(c1, rs, ord, n) == dedup_prefix(c2, rs, ord, n),
    decreases n,
{
    if n > 0 {
        lemma_dedup_same(c1, c2, rs, ord, n - 1);
        let p = dedup_prefix(c1, rs, ord, n - 1);
        if p.len() > 0 {
            lemma_record_cmp_same(c1, c2, rs[p.last() as int], rs[ord[n - 1] as int]);
        }
    }
}

proof fn lemma_sort_output_same(c1: SortConfig, c2: SortConfig, rs: Seq<Seq<u8>>, out: Seq<u8>)
    requires
        same_comparison(c1, c2),
        crate::is_sort_output(c1, rs, out),
    ensures
        crate::is_sort_output(c2, rs, out),
{
    let ord = choose|ord: Seq<usize>| sorted_order(c1, rs, ord) && out == render(
        pick(rs, if c1.unique { dedup(c1, rs, ord) } else { ord }),
        crate::terminator(c1),
    );
    assert forall|k: int| 0 <= k < ord.len() - 1 implies #[trigger] record_cmp(c2, rs[ord[k] as int], rs[ord[k + 1] as int])
        == record_cmp(c1, rs[ord[k] as int], rs[ord[k + 1] as int]) by {
        lemma_record_cmp_same(c1, c2, rs[ord[k] as int], rs[ord[k + 1] as int]);
    }
    lemma_dedup_same(c1, c2, rs, ord, ord.len() as int);
    assert(sorted_order(c2, rs, ord));
}

/// The output of sorting is determined: any two outputs that the contract of `sort`
/// allows for the same records and options are the same bytes.
pub proof fn lemma_sort_output_unique(c: SortConfig, rs: Seq<Seq<u8>>, out1: Seq<u8>, out2: Seq<u8>)
    requires
        rs.len() <= usize::MAX,
        crate::is_sort_output(c, rs, out1),
        crate::is_sort_output(c, rs, out2),
    ensures
        out1 == out2,
{
    let o1 = choose|ord: Seq<usize>| sorted_order(c, rs, ord) && out1 == render(
        pick(rs, if c.unique { dedup(c, rs, ord) } else { ord }),
        crate::terminator(c),
    );
    let o2 = choose|ord: Seq<usize>| sorted_order(c, rs, ord) && out2 == render(
        pick(rs, if c.unique { dedup(c, rs, ord) } else { ord }),
        crate::terminator(c),
    );
    lemma_sorted_orders_agree(c, rs, o1, o2);
}

/// Merging the inputs gives the same bytes as sorting them all
/// together under the same options.
pub proof fn lemma_merge_matches_sort(c: SortConfig, rs: Seq<Seq<u8>>, merged: Seq<u8>, sorted: Seq<u8>)
    requires
        rs.len() <= usize::MAX,
        crate::is_sort_output(SortConfig { merge: true, ..c }, rs, merged),
        crate::is_sort_output(SortConfig { merge: false, ..c }, rs, sorted),
    ensures
        merged == sorted,
{
    lemma_sort_output_same(SortConfig { merge: true, ..c }, SortConfig { merge: false, ..c }, rs, merged);
    lemma_sort_output_unique(SortConfig { merge: false, ..c }, rs, merged, sorted);
}

/// The record `x` equals one of the records that `os` names.
pub open spec fn covered(c: SortConfig, rs: Seq<Seq<u8>>, x: Seq<u8>, os: Seq<usize>) -> bool {
    exists|k: int| 0 <= k < os.len() && record_cmp(c, x, rs[os[k] as int]) is Equal
}

/// Some record of `os` equals `x`.
pub open spec fn has_equal(c: SortConfig, x: Seq<u8>, os: Seq<Seq<u8>>) -> bool {
    exists|k: int| 0 <= k < os.len() && record_cmp(c, x, os[k]) is Equal
}

/// Every record of `ord[..n]` equals one that the dropping of equal neighbours kept.
proof fn lemma_dedup_covers(c: SortConfig, rs: Seq<Seq<u8>>, ord: Seq<usize>, n: int)
    requires
        0 <= n <= ord.len(),
    ensures
        forall|m: int| 0 <= m < n ==> covered(c, rs, rs[#[trigger] ord[m] as int], dedup_prefix(c, rs, ord, n)),
    decreases n,
{
    if n > 0 {
        lemma_dedup_covers(c, rs, ord, n - 1);
        let p = dedup_prefix(c, rs, ord, n - 1);
        let q = dedup_prefix(c, rs, ord, n);
        assert forall|m: int| 0 <= m < n implies covered(c, rs, rs[#[trigger] ord[m] as int], q) by {
            if m < n - 1 {
                assert(covered(c, rs, rs[ord[m] as int], p));
                let k = choose|k: int| 0 <= k < p.len() && record_cmp(c, rs[ord[m] as int], rs[p[k] as int]) is Equal;
                assert(q[k] == p[k]);
            } else if q == p {
                let k = p.len() - 1;
                lemma_record_cmp_antisym(c, rs[p[k] as int], rs[ord[m] as int]);
                assert(record_cmp(c, rs[ord[m] as int], rs[q[k] as int]) is Equal);
            } else {
                let k = q.len() - 1;
                assert(q[k] == ord[m]);
                lemma_record_cmp_antisym(c, rs[ord[m] as int], rs[ord[m] as int]);
            }
        }
    }
}

/// A permutation of `0..n` names every position below `n`.
proof fn lemma_perm_names(ord: Seq<usize>, n: nat, i: int)
    requires
        is_perm(ord, n),
        0 <= i < n,
        n <= usize::MAX,
    ensures
        exists|m: int| 0 <= m < ord.len() && ord[m] == i,
{
    let r = range_seq(0, n as int);
    r.to_multiset_ensures();
    ord.to_multiset_ensures();
    assert(r[i] == i as usize);
    assert(r.contains(i as usize));
    assert(ord.to_multiset().count(i as usize) > 0);
    assert(ord.contains(i as usize));
}

/// With unique output asked for, the output writes out records in which no two
/// neighbours are equal under the full comparator, and every input record equals one
/// of them.
pub proof fn lemma_unique_output(c: SortConfig, rs: Seq<Seq<u8>>, out: Seq<u8>)
    requires
        c.unique,
        rs.len() <= usize::MAX,
        crate::is_sort_output(c, rs, out),
    ensures
        exists|os: Seq<Seq<u8>>|
            out == render(os, crate::terminator(c)) && (forall|k: int|
                0 <= k < os.len() - 1 ==> !(#[trigger] record_cmp(c, os[k], os[k + 1]) is Equal)) && (forall|i: int|
                0 <= i < rs.len() ==> has_equal(c, #[trigger] rs[i], os)),
{
    let ord = choose|ord: Seq<usize>| sorted_order(c, rs, ord) && out == render(
        pick(rs, if c.unique { dedup(c, rs, ord) } else { ord }),
        crate::terminator(c),
    );
    let d = dedup(c, rs, ord);
    let os = pick(rs, d);
    lemma_dedup_no_equal_neighbours(c, rs, ord, ord.len() as int);
    lemma_dedup_covers(c, rs, ord, ord.len() as int);
    assert forall|k: int| 0 <= k < os.len() - 1 implies !(#[trigger] record_cmp(c, os[k], os[k + 1]) is Equal) by {
        assert(!(record_cmp(c, rs[d[k] as int], rs[d[k + 1] as int]) is Equal));
    }
    assert forall|i: int| 0 <= i < rs.len() implies has_equal(c, #[trigger] rs[i], os) by {
        lemma_perm_names(ord, rs.len(), i);
        let m = choose|m: int| 0 <= m < ord.len() && ord[m] == i;
        assert(covered(c, rs, rs[ord[m] as int], d));
        let k = choose|k: int| 0 <= k < d.len() && record_cmp(c, rs[ord[m] as int], rs[d[k] as int]) is Equal;
        assert(os[k] == rs[d[k] as int]);
        assert(record_cmp(c, rs[i], os[k]) is Equal);
    }
}

/// Two non-decreasing sequences of the same records agree position by position up to
/// equality: they may differ only in the order within runs of equal records.
proof fn lemma_ordered_records_match(c: SortConfig, s1: Seq<Seq<u8>>, s2: Seq<Seq<u8>>)
    requires
        s1.to_multiset() == s2.to_multiset(),
        forall|k: int| 0 <= k < s1.len() - 1 ==> le(#[trigger] record_cmp(c, s1[k], s1[k + 1])),
        forall|k: int| 0 <= k < s2.len() - 1 ==> le(#[trigger] record_cmp(c, s2[k], s2[k + 1])),
    ensures
        s1.len() == s2.len(),
        forall|k: int| 0 <= k < s1.len() ==> #[trigger] record_cmp(c, s1[k], s2[k]) is Equal,
    decreases s1.len(),
{
    s1.to_multiset_ensures();
    s2.to_multiset_ensures();
    if s1.len() > 0 {
        let x = s1[0];
        let y = s2[0];
        assert(s2.to_multiset().count(x) > 0);
        assert(s2.contains(x));
        let q2 = choose|q: int| 0 <= q < s2.len() && s2[q] == x;
        assert(s2.contains(y));
        assert(s2.to_multiset().count(y) > 0);
        assert(s1.contains(y));
        let q1 = choose|q: int| 0 <= q < s1.len() && s1[q] == y;
        lemma_seq_ordered_pairs(c, s1, 0, q1);
        lemma_seq_ordered_pairs(c, s2, 0, q2);
        lemma_record_cmp_antisym(c, x, y);
        assert(record_cmp(c, x, y) is Equal);
        let t1 = s1.drop_first();
        let t2 = s2.remove(q2);
        assert(s1.remove(0) =~= t1);
        assert(t1.to_multiset() =~= t2.to_multiset());
        assert forall|k: int| 0 <= k < t1.len() - 1 implies le(#[trigger] record_cmp(c, t1[k], t1[k + 1])) by {
            assert(t1[k] == s1[k + 1] && t1[k + 1] == s1[k + 2]);
        }
        assert forall|k: int| 0 <= k < t2.len() - 1 implies le(#[trigger] record_cmp(c, t2[k], t2[k + 1])) by {
            if k + 1 < q2 {
                assert(t2[k] == s2[k] && t2[k + 1] == s2[k + 1]);
                assert(le(record_cmp(c, s2[k], s2[k + 1])));
            } else if k >= q2 {
                let m = k + 1;
                assert(t2[k] == s2[m] && t2[k + 1] == s2[m + 1]);
                assert(le(record_cmp(c, s2[m], s2[m + 1])));
            } else {
                assert(t2[k] == s2[k] && t2[k + 1] == s2[k + 2]);
                lemma_seq_ordered_pairs(c, s2, k, k + 2);
            }
        }
        lemma_ordered_records_match(c, t1, t2);
        assert forall|k: int| 0 <= k < s1.len() implies #[trigger] record_cmp(c, s1[k], s2[k]) is Equal by {
            if k > 0 {
                assert(s1[k] == t1[k - 1]);
                assert(record_cmp(c, t1[k - 1], t2[k - 1]) is Equal);
                if k > q2 {
                    assert(t2[k - 1] == s2[k]);
                } else {
                    assert(t2[k - 1] == s2[k - 1]);
                    lemma_seq_ordered_pairs(c, s2, 0, k - 1);
                    lemma_seq_ordered_pairs(c, s2, k - 1, q2);
                    lemma_seq_ordered_pairs(c, s2, 0, k);
                    lemma_seq_ordered_pairs(c, s2, k, q2);
                    lemma_record_cmp_preorder(c, y, s2[k - 1], x);
                    lemma_record_cmp_preorder(c, y, s2[k], x);
                    lemma_record_cmp_preorder(c, s2[k - 1], x, s2[k]);
                    lemma_record_cmp_preorder(c, s1[k], s2[k - 1], s2[k]);
                    lemma_record_cmp_antisym(c, x, s2[k - 1]);
                    lemma_record_cmp_antisym(c, x, s2[k]);
                }
            }
        }
    }
}

/// With the global reverse switched, the sorted records are those sorted without it
/// read backwards, up to the order within runs of equal records: position by position
/// they compare equal (with stable output, ties keep input order in both directions).
pub proof fn lemma_reversed_sort_matches_up_to_ties(c: SortConfig, rs: Seq<Seq<u8>>, o: Seq<usize>, o_rev: Seq<usize>)
    requires
        rs.len() <= usize::MAX,
        sorted_order(c, rs, o),
        sorted_order(reversed(c), rs, o_rev),
    ensures
        pick(rs, o_rev).len() == pick(rs, o).len(),
        forall|k: int| 0 <= k < pick(rs, o_rev).len() ==> #[trigger] record_cmp(c, pick(rs, o_rev)[k], pick(rs, o).reverse()[k]) is Equal,
{
    lemma_reverse_of_sorted_order(c, rs, o);
    lemma_sorted_order_keeps_records(c, rs, o);
    lemma_sorted_order_keeps_records(reversed(c), rs, o_rev);
    lemma_reverse_multiset(o);
    lemma_pick_multiset(rs, o.reverse(), range_seq(0, rs.len() as int));
    assert(pick(rs, range_seq(0, rs.len() as int)) =~= rs);
    let s1 = pick(rs, o_rev);
    let s2 = pick(rs, o.reverse());
    assert(s2 =~= pick(rs, o).reverse());
    assert forall|k: int| 0 <= k < s1.len() - 1 implies le(#[trigger] record_cmp(reversed(c), s1[k], s1[k + 1])) by {
        assert(!(record_cmp(reversed(c), rs[o_rev[k] as int], rs[o_rev[k + 1] as int]) is Greater));
    }
    assert forall|k: int| 0 <= k < s2.len() - 1 implies le(#[trigger] record_cmp(reversed(c), s2[k], s2[k + 1])) by {
        assert(!(record_cmp(reversed(c), rs[o.reverse()[k] as int], rs[o.reverse()[k + 1] as int]) is Greater));
    }
    lemma_ordered_records_match(reversed(c), s1, s2);
    assert forall|k: int| 0 <= k < s1.len() implies #[trigger] record_cmp(c, s1[k], s2[k]) is Equal by {
        assert(record_cmp(reversed(c), s1[k], s2[k]) is Equal);
        lemma_reverse_flips(c, s1[k], s2[k]);
    }
}

} // verus!
