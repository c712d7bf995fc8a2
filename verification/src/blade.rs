//! Blades: products of basis vectors, and their canonical form.
//!
//! A raw blade is any sequence of basis vectors. Its canonical form is the
//! strictly ascending sequence of the vectors that occur an odd number of
//! times, together with the sign that the reordering costs.

use crate::basis::{lemma_base_rank_injective, Base};
use crate::sorting::{
    lemma_stable_sort_of_ordered, lemma_stable_sort_sorts, ordered, stable_sort, total_preorder,
};
use std::cmp::Ordering;
use vstd::prelude::*;
use vstd::std_specs::cmp::{PartialEqSpecImpl, PartialOrdSpecImpl};

verus! {

/// The order of the basis vectors, by rank.
pub open spec fn base_order() -> spec_fn(Base, Base) -> bool {
    |a: Base, b: Base| a.rank() <= b.rank()
}

/// How many elements of `s` rank above `x`.
pub open spec fn count_above(s: Seq<Base>, x: Base) -> nat
    decreases s.len(),
{
    if s.len() == 0 {
        0
    } else {
        count_above(s.drop_last(), x) + if s.last().rank() > x.rank() {
            1nat
        } else {
            0nat
        }
    }
}

/// The number of pairs of positions whose vectors stand in descending order.
/// Its parity is the parity of every way to sort `s` by exchanging neighbours.
pub open spec fn inversions(s: Seq<Base>) -> nat
    decreases s.len(),
{
    if s.len() == 0 {
        0
    } else {
        inversions(s.drop_last()) + count_above(s.drop_last(), s.last())
    }
}

/// Whether bringing `s` into ascending order negates the blade.
pub open spec fn sign_flip(s: Seq<Base>) -> bool {
    inversions(s) % 2 == 1
}

/// `s` without its adjacent equal pairs, taken from the left.
pub open spec fn cancel_pairs(s: Seq<Base>) -> Seq<Base>
    decreases s.len(),
{
    if s.len() < 2 {
        s
    } else if s[0] == s[1] {
        cancel_pairs(s.skip(2))
    } else {
        seq![s[0]] + cancel_pairs(s.skip(1))
    }
}

/// Strictly ascending by rank: the shape of a canonical blade.
pub open spec fn ascending(s: Seq<Base>) -> bool {
    forall|i: int, j: int| 0 <= i < j < s.len() ==> s[i].rank() < s[j].rank()
}

/// The canonical blade of a raw blade.
pub open spec fn canonical_blade(s: Seq<Base>) -> Seq<Base> {
    cancel_pairs(stable_sort(s, base_order()))
}

/// `s` with the neighbours at `j` and `j + 1` exchanged.
pub open spec fn exchanged(s: Seq<Base>, j: int) -> Seq<Base> {
    s.update(j, s[j + 1]).update(j + 1, s[j])
}

/// The order of the basis vectors is a total order.
pub proof fn lemma_base_order_total()
    ensures
        total_preorder(base_order()),
        vstd::relations::total_ordering(base_order()),
{
    let le = base_order();
    assert forall|x: Base, y: Base| #[trigger] le(x, y) && #[trigger] le(y, x) implies x == y by {
        lemma_base_rank_injective(x, y);
    }
}

/// Exchanging two neighbours keeps the number of elements that rank above
/// `x`.
proof fn lemma_count_above_exchanged(s: Seq<Base>, j: int, x: Base)
    requires
        0 <= j,
        j + 1 < s.len(),
    ensures
        count_above(exchanged(s, j), x) == count_above(s, x),
    decreases s.len(),
{
    let t = exchanged(s, j);
    if j + 1 == s.len() - 1 {
        let front = s.drop_last().drop_last();
        assert(t.drop_last().drop_last() =~= front);
        assert(t.drop_last().last() == s.last());
        assert(s.drop_last().last() == t.last());
        assert(count_above(s.drop_last(), x) == count_above(front, x) + if s[j].rank()
            > x.rank() {
            1nat
        } else {
            0nat
        });
        assert(count_above(t.drop_last(), x) == count_above(front, x) + if s[j + 1].rank()
            > x.rank() {
            1nat
        } else {
            0nat
        });
    } else {
        lemma_count_above_exchanged(s.drop_last(), j, x);
        assert(t.drop_last() =~= exchanged(s.drop_last(), j));
    }
}

/// Exchanging two neighbours that stand in descending order removes exactly
/// one inversion.
pub proof fn lemma_exchange_removes_inversion(s: Seq<Base>, j: int)
    requires
        0 <= j,
        j + 1 < s.len(),
        s[j].rank() > s[j + 1].rank(),
    ensures
        inversions(exchanged(s, j)) + 1 == inversions(s),
    decreases s.len(),
{
    let t = exchanged(s, j);
    if j + 1 == s.len() - 1 {
        let front = s.drop_last().drop_last();
        assert(t.drop_last().drop_last() =~= front);
        assert(t.drop_last().last() == s.last());
        assert(s.drop_last().last() == t.last());
        assert(inversions(s.drop_last()) == inversions(front) + count_above(front, s[j]));
        assert(inversions(t.drop_last()) == inversions(front) + count_above(front, s[j + 1]));
        assert(count_above(s.drop_last(), s[j + 1]) == count_above(front, s[j + 1]) + 1);
        assert(count_above(t.drop_last(), s[j]) == count_above(front, s[j]));
    } else {
        lemma_exchange_removes_inversion(s.drop_last(), j);
        lemma_count_above_exchanged(s.drop_last(), j, s.last());
        assert(t.drop_last() =~= exchanged(s.drop_last(), j));
    }
}

/// Where no element ranks above `x`, the count is zero.
proof fn lemma_count_above_none(s: Seq<Base>, x: Base)
    requires
        forall|i: int| 0 <= i < s.len() ==> s[i].rank() <= x.rank(),
    ensures
        count_above(s, x) == 0,
    decreases s.len(),
{
    if s.len() > 0 {
        lemma_count_above_none(s.drop_last(), x);
    }
}

/// A sequence in ascending order, strict or not, has no inversions.
pub proof fn lemma_ordered_has_no_inversions(s: Seq<Base>)
    requires
        ordered(s, base_order()),
    ensures
        inversions(s) == 0,
    decreases s.len(),
{
    if s.len() > 0 {
        let front = s.drop_last();
        lemma_ordered_has_no_inversions(front);
        assert forall|i: int| 0 <= i < front.len() implies front[i].rank() <= s.last().rank() by {
            assert(base_order()(s[i], s[s.len() - 1]));
        }
        lemma_count_above_none(front, s.last());
    }
}

/// A strictly ascending sequence has no adjacent equal pairs to cancel.
pub proof fn lemma_cancel_pairs_of_ascending(s: Seq<Base>)
    requires
        ascending(s),
    ensures
        cancel_pairs(s) == s,
    decreases s.len(),
{
    if s.len() >= 2 {
        assert(s[0].rank() < s[1].rank());
        lemma_cancel_pairs_of_ascending(s.skip(1));
        assert(seq![s[0]] + s.skip(1) =~= s);
    }
}

/// A canonical blade is its own canonical form, and costs no sign.
pub proof fn lemma_canonical_blade_is_fixed(s: Seq<Base>)
    requires
        ascending(s),
    ensures
        canonical_blade(s) == s,
        !sign_flip(s),
{
    assert(ordered(s, base_order()));
    lemma_stable_sort_of_ordered(s, base_order());
    lemma_cancel_pairs_of_ascending(s);
    lemma_ordered_has_no_inversions(s);
}

/// In an ordered sequence, cancelling leaves a strictly ascending sequence
/// that holds exactly the vectors that occurred an odd number of times.
pub proof fn lemma_cancel_pairs_of_ordered(s: Seq<Base>)
    requires
        ordered(s, base_order()),
    ensures
        ascending(cancel_pairs(s)),
        forall|b: Base| #[trigger]
            cancel_pairs(s).contains(b) <==> s.to_multiset().count(b) % 2 == 1,
    decreases s.len(),
{
    broadcast use vstd::seq_lib::group_to_multiset_ensures;

    let c = cancel_pairs(s);
    if s.len() == 0 {
        assert forall|b: Base| #[trigger] c.contains(b) <==> s.to_multiset().count(b) % 2 == 1 by {
            assert(s.to_multiset().count(b) == 0) by {
                if s.to_multiset().count(b) > 0 {
                    assert(s.contains(b));
                }
            }
        }
    } else if s.len() == 1 {
        assert(s =~= Seq::<Base>::empty().push(s[0]));
        assert forall|b: Base| #[trigger] c.contains(b) <==> s.to_multiset().count(b) % 2 == 1 by {
            if b == s[0] {
                assert(c[0] == b);
            }
        }
    } else {
        let le = base_order();
        if s[0] == s[1] {
            let rest = s.skip(2);
            assert forall|i: int, j: int| 0 <= i < j < rest.len() implies le(rest[i], rest[j]) by {
                assert(le(s[i + 2], s[j + 2]));
            }
            lemma_cancel_pairs_of_ordered(rest);
            assert(s =~= seq![s[0], s[1]] + rest);
            vstd::seq_lib::lemma_multiset_commutative(seq![s[0], s[1]], rest);
            assert(seq![s[0], s[1]] =~= Seq::<Base>::empty().push(s[0]).push(s[1]));
            assert forall|b: Base| #[trigger]
                c.contains(b) <==> s.to_multiset().count(b) % 2 == 1 by {
                assert(s.to_multiset().count(b) == rest.to_multiset().count(b) + if b == s[0] {
                    2int
                } else {
                    0int
                });
                assert(cancel_pairs(rest).contains(b) <==> rest.to_multiset().count(b) % 2 == 1);
            }
        } else {
            let rest = s.skip(1);
            let inner = cancel_pairs(rest);
            assert forall|i: int, j: int| 0 <= i < j < rest.len() implies le(rest[i], rest[j]) by {
                assert(le(s[i + 1], s[j + 1]));
            }
            lemma_cancel_pairs_of_ordered(rest);
            assert(s =~= seq![s[0]] + rest);
            vstd::seq_lib::lemma_multiset_commutative(seq![s[0]], rest);
            assert(seq![s[0]] =~= Seq::<Base>::empty().push(s[0]));
            assert(le(s[0], s[1]));
            lemma_base_rank_injective(s[0], s[1]);
            assert forall|k: int| 0 <= k < rest.len() implies s[0].rank() < #[trigger]
                rest[k].rank() by {
                if k > 0 {
                    assert(le(s[1], s[k + 1]));
                }
            }
            assert(rest.to_multiset().count(s[0]) == 0) by {
                if rest.to_multiset().count(s[0]) > 0 {
                    assert(rest.contains(s[0]));
                }
            }
            assert forall|k: int| 0 <= k < inner.len() implies s[0].rank() < #[trigger]
                inner[k].rank() by {
                assert(inner.contains(inner[k]));
                assert(rest.to_multiset().count(inner[k]) > 0);
                assert(rest.contains(inner[k]));
            }
            assert forall|i: int, j: int| 0 <= i < j < c.len() implies c[i].rank()
                < c[j].rank() by {
                if i > 0 {
                    assert(inner[i - 1].rank() < inner[j - 1].rank());
                }
            }
            assert forall|b: Base| #[trigger]
                c.contains(b) <==> s.to_multiset().count(b) % 2 == 1 by {
                assert(s.to_multiset().count(b) == rest.to_multiset().count(b) + if b == s[0] {
                    1int
                } else {
                    0int
                });
                assert(inner.contains(b) <==> rest.to_multiset().count(b) % 2 == 1);
                if b == s[0] {
                    assert(c[0] == b);
                } else if inner.contains(b) {
                    let k = choose|k: int| 0 <= k < inner.len() && inner[k] == b;
                    assert(c[k + 1] == b);
                } else if c.contains(b) {
                    let k = choose|k: int| 0 <= k < c.len() && c[k] == b;
                    assert(inner[k - 1] == b);
                }
            }
        }
    }
}

/// The canonical blade of any raw blade is strictly ascending and holds
/// exactly the vectors that the raw blade holds an odd number of times.
pub proof fn lemma_canonical_blade_characterized(s: Seq<Base>)
    ensures
        ascending(canonical_blade(s)),
        forall|b: Base| #[trigger]
            canonical_blade(s).contains(b) <==> s.to_multiset().count(b) % 2 == 1,
{
    lemma_base_order_total();
    lemma_stable_sort_sorts(s, base_order());
    lemma_cancel_pairs_of_ordered(stable_sort(s, base_order()));
}

/// Canonicalizing twice is canonicalizing once, and the second time costs
/// no sign.
pub proof fn lemma_canonical_blade_idempotent(s: Seq<Base>)
    ensures
        canonical_blade(canonical_blade(s)) == canonical_blade(s),
        !sign_flip(canonical_blade(s)),
{
    lemma_canonical_blade_characterized(s);
    lemma_canonical_blade_is_fixed(canonical_blade(s));
}

/// Exchanging two neighbours that differ negates the blade: the parity of
/// the inversions changes, whichever of the two ranks higher.
pub proof fn lemma_exchange_flips_sign(s: Seq<Base>, j: int)
    requires
        0 <= j,
        j + 1 < s.len(),
        s[j] != s[j + 1],
    ensures
        sign_flip(exchanged(s, j)) != sign_flip(s),
{
    lemma_base_rank_injective(s[j], s[j + 1]);
    if s[j].rank() > s[j + 1].rank() {
        lemma_exchange_removes_inversion(s, j);
    } else {
        let t = exchanged(s, j);
        lemma_exchange_removes_inversion(t, j);
        assert(exchanged(t, j) =~= s);
    }
}

/// Any arrangement of the vectors of a canonical blade has that blade as
/// its canonical form.
pub proof fn lemma_canonical_blade_of_permutation(raw: Seq<Base>, blade: Seq<Base>)
    requires
        ascending(blade),
        raw.to_multiset() == blade.to_multiset(),
    ensures
        canonical_blade(raw) == blade,
{
    let le = base_order();
    lemma_base_order_total();
    lemma_stable_sort_sorts(raw, le);
    assert(vstd::relations::sorted_by(stable_sort(raw, le), le));
    assert(vstd::relations::sorted_by(blade, le));
    vstd::seq_lib::lemma_sorted_unique(stable_sort(raw, le), blade, le);
    lemma_cancel_pairs_of_ascending(blade);
}

/// A canonical blade holds at most four vectors.
pub proof fn lemma_ascending_is_short(s: Seq<Base>)
    requires
        ascending(s),
    ensures
        s.len() <= 4,
{
    if s.len() > 4 {
        assert(s[0].rank() < s[1].rank());
        assert(s[1].rank() < s[2].rank());
        assert(s[2].rank() < s[3].rank());
        assert(s[3].rank() < s[4].rank());
    }
}

/// The order of two sequences by their first difference: -1, 0 or 1. Where
/// one runs out before a difference is found, they count as equal.
pub open spec fn lex_compare(a: Seq<Base>, b: Seq<Base>) -> int
    decreases a.len(),
{
    if a.len() == 0 || b.len() == 0 {
        0
    } else if a[0].rank() < b[0].rank() {
        -1
    } else if a[0].rank() > b[0].rank() {
        1
    } else {
        lex_compare(a.skip(1), b.skip(1))
    }
}

/// The order of two blades: the shorter comes first, and blades of one
/// length go by their first difference. The result is -1, 0 or 1.
pub open spec fn blade_compare(a: Seq<Base>, b: Seq<Base>) -> int {
    if a.len() < b.len() {
        -1
    } else if a.len() > b.len() {
        1
    } else {
        lex_compare(a, b)
    }
}

/// On sequences of one length the order by first difference is total.
proof fn lemma_lex_compare_laws(a: Seq<Base>, b: Seq<Base>, c: Seq<Base>)
    requires
        a.len() == b.len(),
        b.len() == c.len(),
    ensures
        -1 <= lex_compare(a, b) <= 1,
        lex_compare(a, b) == -lex_compare(b, a),
        lex_compare(a, b) == 0 <==> a == b,
        lex_compare(a, b) <= 0 && lex_compare(b, c) <= 0 ==> lex_compare(a, c) <= 0,
        lex_compare(a, b) <= 0 && lex_compare(b, c) < 0 ==> lex_compare(a, c) < 0,
        lex_compare(a, b) < 0 && lex_compare(b, c) <= 0 ==> lex_compare(a, c) < 0,
    decreases a.len(),
{
    if a.len() == 0 {
        assert(a =~= b);
    } else {
        lemma_lex_compare_laws(a.skip(1), b.skip(1), c.skip(1));
        lemma_base_rank_injective(a[0], b[0]);
        if a.skip(1) == b.skip(1) && a[0] == b[0] {
            assert(a =~= seq![a[0]] + a.skip(1));
            assert(b =~= seq![b[0]] + b.skip(1));
        }
    }
}

/// The order of blades is total: it compares any two blades, is transitive,
/// and calls two blades equal only when they are the same sequence.
pub proof fn lemma_blade_compare_laws(a: Seq<Base>, b: Seq<Base>, c: Seq<Base>)
    ensures
        -1 <= blade_compare(a, b) <= 1,
        blade_compare(a, b) == -blade_compare(b, a),
        blade_compare(a, b) == 0 <==> a == b,
        blade_compare(a, b) <= 0 && blade_compare(b, c) <= 0 ==> blade_compare(a, c) <= 0,
        blade_compare(a, b) <= 0 && blade_compare(b, c) < 0 ==> blade_compare(a, c) < 0,
        blade_compare(a, b) < 0 && blade_compare(b, c) <= 0 ==> blade_compare(a, c) < 0,
{
    if a.len() == b.len() {
        lemma_lex_compare_laws(a, b, b);
        if b.len() == c.len() {
            lemma_lex_compare_laws(a, b, c);
        }
    }
}

/// A raw blade: basis vectors in any order, with repeats.
#[derive(Debug)]
pub struct Bases(pub Vec<Base>);

impl View for Bases {
    type V = Seq<Base>;

    open spec fn view(&self) -> Seq<Base> {
        self.0@
    }
}

/// Compares two blades of one length by their first difference.
fn lex_compare_exec(a: &Vec<Base>, b: &Vec<Base>) -> (r: i8)
    requires
        a@.len() == b@.len(),
    ensures
        r == lex_compare(a@, b@),
{
    let n = a.len();
    let mut i: usize = 0;
    assert(a@.skip(0) =~= a@ && b@.skip(0) =~= b@);
    while i < n
        invariant
            i <= n,
            n == a@.len(),
            n == b@.len(),
            lex_compare(a@, b@) == lex_compare(a@.skip(i as int), b@.skip(i as int)),
        decreases n - i,
    {
        let x = a[i].index();
        let y = b[i].index();
        proof {
            assert(a@.skip(i as int)[0] == a@[i as int]);
            assert(b@.skip(i as int)[0] == b@[i as int]);
            assert(a@.skip(i as int).skip(1) =~= a@.skip(i + 1));
            assert(b@.skip(i as int).skip(1) =~= b@.skip(i + 1));
        }
        if x < y {
            return -1;
        } else if x > y {
            return 1;
        }
        i = i + 1;
    }
    0
}

/// Compares two blades: -1 where `a` comes first, 1 where `b` does, 0 where
/// they are the same blade.
pub fn compare_blades(a: &Vec<Base>, b: &Vec<Base>) -> (r: i8)
    ensures
        r == blade_compare(a@, b@),
{
    if a.len() < b.len() {
        -1
    } else if a.len() > b.len() {
        1
    } else {
        lex_compare_exec(a, b)
    }
}

impl Bases {
    /// Brings the blade into canonical form. The vectors are sorted by
    /// exchanging neighbours, each exchange negating the blade, and then
    /// equal neighbours cancel. Returns whether the sign flips, and the
    /// canonical blade.
    pub fn simplify(self) -> (r: (bool, Vec<Base>))
        ensures
            r.0 == sign_flip(self@),
            r.1@ == canonical_blade(self@),
            ascending(r.1@),
            r.1@.len() <= 4,
            forall|b: Base| #[trigger] r.1@.contains(b) <==> self@.to_multiset().count(b) % 2 == 1,
    {
        let mut v = self.0;
        let ghost orig = v@;
        let n = v.len();
        let mut flip = false;
        let ghost mut moves: nat = 0;
        let mut i: usize = 0;
        while n - i > 1
            invariant
                i <= n,
                n == v@.len(),
                v@.to_multiset() == orig.to_multiset(),
                moves + inversions(v@) == inversions(orig),
                flip == (moves % 2 == 1),
                forall|a: int, b: int|
                    0 <= a < b < n && n - i <= b ==> v@[a].rank() <= v@[b].rank(),
            decreases n - i,
        {
            let mut j: usize = 0;
            while j < n - i - 1
                invariant
                    i + 1 < n,
                    j + i + 1 <= n,
                    n == v@.len(),
                    v@.to_multiset() == orig.to_multiset(),
                    moves + inversions(v@) == inversions(orig),
                    flip == (moves % 2 == 1),
                    forall|a: int, b: int|
                        0 <= a < b < n && n - i <= b ==> v@[a].rank() <= v@[b].rank(),
                    forall|a: int| 0 <= a < j ==> v@[a].rank() <= v@[j as int].rank(),
                decreases n - j,
            {
                let first = v[j];
                let second = v[j + 1];
                if first.index() > second.index() {
                    proof {
                        lemma_exchange_removes_inversion(v@, j as int);
                        lemma_exchange_keeps_contents(v@, j as int);
                    }
                    let ghost held = v@;
                    v[j] = second;
                    v[j + 1] = first;
                    assert(v@ == exchanged(held, j as int));
                    flip = !flip;
                    proof {
                        moves = moves + 1;
                    }
                }
                j = j + 1;
            }
            i = i + 1;
        }
        proof {
            let le = base_order();
            lemma_base_order_total();
            lemma_stable_sort_sorts(orig, le);
            assert(vstd::relations::sorted_by(v@, le));
            assert(vstd::relations::sorted_by(stable_sort(orig, le), le));
            vstd::seq_lib::lemma_sorted_unique(v@, stable_sort(orig, le), le);
            lemma_ordered_has_no_inversions(v@);
            lemma_canonical_blade_characterized(orig);
            lemma_ascending_is_short(canonical_blade(orig));
        }
        let ghost sorted = v@;
        let mut k: usize = 0;
        assert(v@.skip(0) =~= v@);
        assert(v@.take(0) + cancel_pairs(v@) =~= cancel_pairs(sorted));
        while v.len() - k > 1
            invariant
                k <= v@.len(),
                cancel_pairs(sorted) == v@.take(k as int) + cancel_pairs(v@.skip(k as int)),
            decreases v@.len() - k,
        {
            let ghost held = v@;
            proof {
                assert(held.skip(k as int)[0] == held[k as int]);
                assert(held.skip(k as int)[1] == held[k + 1]);
            }
            if v[k] == v[k + 1] {
                v.remove(k);
                v.remove(k);
                proof {
                    assert(v@.take(k as int) =~= held.take(k as int));
                    assert(v@.skip(k as int) =~= held.skip(k as int).skip(2));
                }
            } else {
                proof {
                    assert(held.skip(k as int).skip(1) =~= held.skip(k + 1));
                    assert(held.take(k as int) + (seq![held[k as int]] + cancel_pairs(
                        held.skip(k + 1),
                    )) =~= held.take(k + 1) + cancel_pairs(held.skip(k + 1)));
                }
                k = k + 1;
            }
        }
        proof {
            assert(v@.take(k as int) + v@.skip(k as int) =~= v@);
        }
        (flip, v)
    }
}

/// Exchanging two neighbours keeps what the sequence holds.
pub proof fn lemma_exchange_keeps_contents(s: Seq<Base>, j: int)
    requires
        0 <= j,
        j + 1 < s.len(),
    ensures
        exchanged(s, j).to_multiset() == s.to_multiset(),
{
    broadcast use vstd::seq_lib::group_to_multiset_ensures;

    let mid = s.update(j, s[j + 1]);
    vstd::seq_lib::to_multiset_update(s, j, s[j + 1]);
    vstd::seq_lib::to_multiset_update(mid, j + 1, s[j]);
    assert(s.to_multiset().count(s[j]) > 0) by {
        assert(s.contains(s[j]));
    }
    assert(s.to_multiset().count(s[j + 1]) > 0) by {
        assert(s.contains(s[j + 1]));
    }
    assert(exchanged(s, j).to_multiset() =~= s.to_multiset());
}

impl PartialEq for Bases {
    /// Two blades are equal when they have one length and agree at each
    /// position.
    fn eq(&self, other: &Self) -> (r: bool) {
        compare_blades(&self.0, &other.0) == 0
    }
}

impl PartialEqSpecImpl for Bases {
    open spec fn obeys_eq_spec() -> bool {
        true
    }

    open spec fn eq_spec(&self, other: &Self) -> bool {
        blade_compare(self@, other@) == 0
    }
}

impl PartialOrd for Bases {
    /// Orders blades by length, and blades of one length by their first
    /// difference.
    fn partial_cmp(&self, other: &Self) -> (r: Option<Ordering>) {
        let c = compare_blades(&self.0, &other.0);
        if c < 0 {
            Some(Ordering::Less)
        } else if c > 0 {
            Some(Ordering::Greater)
        } else {
            Some(Ordering::Equal)
        }
    }
}

impl PartialOrdSpecImpl for Bases {
    open spec fn obeys_partial_cmp_spec() -> bool {
        true
    }

    open spec fn partial_cmp_spec(&self, other: &Self) -> Option<Ordering> {
        if blade_compare(self@, other@) < 0 {
            Some(Ordering::Less)
        } else if blade_compare(self@, other@) > 0 {
            Some(Ordering::Greater)
        } else {
            Some(Ordering::Equal)
        }
    }
}

} // verus!
