//! How the poles of a low-pass filter are grouped into second-order sections.

use crate::bits;
use vstd::prelude::*;

verus! {

/// The first pole from `j` on that is not used and is the conjugate of `i`.
pub open spec fn partner_from(
    conjugate: Seq<Seq<bool>>,
    used: Seq<bool>,
    i: int,
    j: int,
) -> Option<int>
    decreases used.len() - j,
{
    if j >= used.len() {
        None
    } else if !used[j] && conjugate[i][j] {
        Some(j)
    } else {
        partner_from(conjugate, used, i, j + 1)
    }
}

/// Poles as they are sorted out: which are used, the real ones, and one of
/// each conjugate pair. `partners` counts the others of the pairs.
#[verifier::ext_equal]
pub struct PoleSplit {
    pub used: Seq<bool>,
    pub reals: Seq<int>,
    pub tops: Seq<int>,
    pub partners: int,
}

/// The first `k` of `n` poles sorted out.
pub open spec fn split_upto(
    on_axis: Seq<bool>,
    conjugate: Seq<Seq<bool>>,
    k: int,
) -> PoleSplit
    decreases k,
{
    if k <= 0 {
        PoleSplit {
            used: Seq::new(on_axis.len(), |i: int| false),
            reals: Seq::empty(),
            tops: Seq::empty(),
            partners: 0,
        }
    } else {
        let s = split_upto(on_axis, conjugate, k - 1);
        let i = k - 1;
        if s.used[i] {
            s
        } else if on_axis[i] {
            PoleSplit { used: s.used.update(i, true), reals: s.reals.push(i), ..s }
        } else {
            match partner_from(conjugate, s.used, i, i + 1) {
                None => PoleSplit { used: s.used.update(i, true), tops: s.tops.push(i), ..s },
                Some(j) => PoleSplit {
                    used: s.used.update(i, true).update(j, true),
                    tops: s.tops.push(i),
                    partners: s.partners + 1,
                    ..s
                },
            }
        }
    }
}

/// How many of the first `k` flags are set.
pub open spec fn set_count(used: Seq<bool>, k: int) -> int
    decreases k,
{
    if k <= 0 {
        0
    } else {
        set_count(used, k - 1) + if used[k - 1] {
            1int
        } else {
            0
        }
    }
}

proof fn lemma_set_count_update(used: Seq<bool>, i: int, k: int)
    requires
        0 <= i < used.len(),
        !used[i],
        0 <= k <= used.len(),
    ensures
        set_count(used.update(i, true), k) == set_count(used, k) + if i < k {
            1int
        } else {
            0
        },
    decreases k,
{
    if k > 0 {
        lemma_set_count_update(used, i, k - 1);
    }
}

proof fn lemma_partner(conjugate: Seq<Seq<bool>>, used: Seq<bool>, i: int, j: int)
    requires
        0 <= j,
    ensures
        partner_from(conjugate, used, i, j) matches Some(p) ==> j <= p < used.len() && !used[p]
            && conjugate[i][p],
    decreases used.len() - j,
{
    if j < used.len() && !(!used[j] && conjugate[i][j]) {
        lemma_partner(conjugate, used, i, j + 1);
    }
}

proof fn lemma_all_clear(used: Seq<bool>, k: int)
    requires
        forall|i: int| 0 <= i < k ==> !#[trigger] used[i],
    ensures
        set_count(used, k) == 0,
    decreases k,
{
    if k > 0 {
        lemma_all_clear(used, k - 1);
    }
}

proof fn lemma_all_set(used: Seq<bool>, k: int)
    requires
        forall|i: int| 0 <= i < k ==> #[trigger] used[i],
    ensures
        k >= 0 ==> set_count(used, k) == k,
    decreases k,
{
    if k > 0 {
        lemma_all_set(used, k - 1);
    }
}

proof fn lemma_split(on_axis: Seq<bool>, conjugate: Seq<Seq<bool>>, k: int)
    requires
        0 <= k <= on_axis.len(),
    ensures
        ({
            let s = split_upto(on_axis, conjugate, k);
            &&& s.used.len() == on_axis.len()
            &&& forall|i: int| 0 <= i < k ==> #[trigger] s.used[i]
            &&& s.reals.len() + s.tops.len() + s.partners == set_count(
                s.used,
                on_axis.len() as int,
            )
            &&& 0 <= s.partners <= s.tops.len()
        }),
    decreases k,
{
    let n = on_axis.len() as int;
    if k == 0 {
        lemma_all_clear(split_upto(on_axis, conjugate, 0).used, n);
    } else {
        lemma_split(on_axis, conjugate, k - 1);
        let s = split_upto(on_axis, conjugate, k - 1);
        let i = k - 1;
        if !s.used[i] {
            lemma_set_count_update(s.used, i, n);
            lemma_partner(conjugate, s.used, i, i + 1);
            match partner_from(conjugate, s.used, i, i + 1) {
                None => {},
                Some(j) => {
                    lemma_set_count_update(s.used.update(i, true), j, n);
                },
            }
        }
    }
}

/// Every pole goes into one group: the real ones alone, the others with their
/// partners where they have one.
pub proof fn law_poles_grouped(on_axis: Seq<bool>, conjugate: Seq<Seq<bool>>)
    ensures
        ({
            let s = split_upto(on_axis, conjugate, on_axis.len() as int);
            s.reals.len() + s.tops.len() + s.partners == on_axis.len() && 0 <= s.partners
                <= s.tops.len()
        }),
{
    let n = on_axis.len() as int;
    lemma_split(on_axis, conjugate, n);
    lemma_all_set(split_upto(on_axis, conjugate, n).used, n);
}

/// Places as mathematical integers.
pub open spec fn places(s: Seq<usize>) -> Seq<int> {
    s.map_values(|i: usize| i as int)
}

/// The rows of a table.
pub open spec fn table(s: Seq<Vec<bool>>) -> Seq<Seq<bool>> {
    s.map_values(|v: Vec<bool>| v@)
}

/// Sorts out the real poles and one of each conjugate pair. `on_axis` says which
/// poles are on_axis, and row `i` of `conjugate` which are the conjugate of pole
/// `i`.
pub fn split_real_complex(on_axis: &[bool], conjugate: &Vec<Vec<bool>>) -> (r: (
    Vec<usize>,
    Vec<usize>,
))
    requires
        conjugate@.len() == on_axis@.len(),
        forall|i: int|
            0 <= i < conjugate@.len() ==> (#[trigger] conjugate@[i])@.len() == on_axis@.len(),
    ensures
        ({
            let s = split_upto(on_axis@, table(conjugate@), on_axis@.len() as int);
            places(r.0@) == s.reals && places(r.1@) == s.tops
        }),
{
    let n: usize = on_axis.len();
    let ghost t = table(conjugate@);
    let mut used: Vec<bool> = Vec::new();
    for i in 0..n
        invariant
            used@.len() == i,
            forall|k: int| 0 <= k < i ==> !#[trigger] used@[k],
    {
        used.push(false);
    }
    let mut reals: Vec<usize> = Vec::new();
    let mut tops: Vec<usize> = Vec::new();
    proof {
        let s = split_upto(on_axis@, t, 0);
        assert(used@ =~= s.used);
        assert(places(reals@) =~= s.reals);
        assert(places(tops@) =~= s.tops);
    }
    for i in 0..n
        invariant
            n == on_axis@.len(),
            t == table(conjugate@),
            conjugate@.len() == n,
            forall|k: int| 0 <= k < n ==> (#[trigger] conjugate@[k])@.len() == n,
            used@.len() == n,
            used@ == split_upto(on_axis@, t, i as int).used,
            places(reals@) == split_upto(on_axis@, t, i as int).reals,
            places(tops@) == split_upto(on_axis@, t, i as int).tops,
    {
        let ghost before = split_upto(on_axis@, t, i as int);
        let ghost after = split_upto(on_axis@, t, i + 1);
        if !used[i] {
            if on_axis[i] {
                used.set(i, true);
                reals.push(i);
                proof {
                    assert(places(reals@) =~= after.reals);
                    assert(used@ =~= after.used);
                }
            } else {
                let mut partner: Option<usize> = None;
                let mut j: usize = i + 1;
                while j < n && partner.is_none()
                    invariant
                        n == on_axis@.len(),
                        i < n,
                        i + 1 <= j <= n,
                        t == table(conjugate@),
                        conjugate@.len() == n,
                        conjugate@[i as int]@.len() == n,
                        used@.len() == n,
                        match partner {
                            Some(p) => p < n && partner_from(t, used@, i as int, i + 1) == Some(
                                p as int,
                            ),
                            None => partner_from(t, used@, i as int, i + 1) == partner_from(
                                t,
                                used@,
                                i as int,
                                j as int,
                            ),
                        },
                    decreases n - j,
                {
                    assert(t[i as int] == conjugate@[i as int]@);
                    if !used[j] && conjugate[i][j] {
                        partner = Some(j);
                    }
                    j = j + 1;
                }
                used.set(i, true);
                tops.push(i);
                match partner {
                    Some(p) => {
                        used.set(p, true);
                    },
                    None => {},
                }
                proof {
                    assert(places(tops@) =~= after.tops);
                    assert(used@ =~= after.used);
                }
            }
        }
    }
    (reals, tops)
}

/// The places with `i` put behind those whose magnitudes are at most its own.
pub open spec fn placed(magnitudes: Seq<u64>, list: Seq<int>, i: int) -> Seq<int>
    decreases list.len(),
{
    if list.len() == 0 || bits::num_le(magnitudes[list.last()], magnitudes[i]) {
        list.push(i)
    } else {
        placed(magnitudes, list.drop_last(), i).push(list.last())
    }
}

/// The first `k` places by ascending magnitude; equal ones keep their order.
pub open spec fn by_magnitude(magnitudes: Seq<u64>, k: int) -> Seq<int>
    decreases k,
{
    if k <= 0 {
        Seq::empty()
    } else {
        placed(magnitudes, by_magnitude(magnitudes, k - 1), k - 1)
    }
}

/// Whether no magnitude is a NaN.
pub open spec fn all_numbers(magnitudes: Seq<u64>) -> bool {
    forall|i: int| 0 <= i < magnitudes.len() ==> !bits::nan(#[trigger] magnitudes[i])
}

proof fn lemma_placed(magnitudes: Seq<u64>, list: Seq<int>, i: int)
    requires
        all_numbers(magnitudes),
        0 <= i < magnitudes.len(),
        forall|a: int| 0 <= a < list.len() ==> 0 <= #[trigger] list[a] < magnitudes.len(),
        forall|a: int, b: int|
            0 <= a < b < list.len() ==> bits::num_le(
                magnitudes[#[trigger] list[a]],
                magnitudes[#[trigger] list[b]],
            ),
    ensures
        ({
            let p = placed(magnitudes, list, i);
            &&& p.len() == list.len() + 1
            &&& forall|a: int| 0 <= a < p.len() ==> 0 <= #[trigger] p[a] < magnitudes.len()
            &&& forall|a: int, b: int|
                0 <= a < b < p.len() ==> bits::num_le(
                    magnitudes[#[trigger] p[a]],
                    magnitudes[#[trigger] p[b]],
                )
            &&& p.to_multiset() == list.to_multiset().insert(i)
            &&& forall|a: int|
                0 <= a < p.len() ==> #[trigger] p[a] == i || exists|b: int|
                    0 <= b < list.len() && #[trigger] list[b] == p[a]
        }),
    decreases list.len(),
{
    broadcast use vstd::seq_lib::group_to_multiset_ensures;

    let p = placed(magnitudes, list, i);
    if list.len() == 0 || bits::num_le(magnitudes[list.last()], magnitudes[i]) {
        assert forall|a: int, b: int| 0 <= a < b < p.len() implies bits::num_le(
            magnitudes[#[trigger] p[a]],
            magnitudes[#[trigger] p[b]],
        ) by {
            if b == list.len() {
                assert(bits::num_le(magnitudes[list[a]], magnitudes[list.last()])) by {
                    if a == list.len() - 1 {
                        assert(!bits::nan(magnitudes[list[a]]));
                    } else {
                        assert(list.last() == list[list.len() - 1]);
                    }
                }
            }
        }
        assert forall|a: int| 0 <= a < p.len() implies #[trigger] p[a] == i || exists|b: int|
            0 <= b < list.len() && #[trigger] list[b] == p[a] by {
            if a < list.len() {
                assert(list[a] == p[a]);
            }
        }
    } else {
        let rest = list.drop_last();
        let last = list.last();
        assert(last == list[list.len() - 1]);
        assert forall|a: int| 0 <= a < rest.len() implies 0 <= #[trigger] rest[a]
            < magnitudes.len() by {
            assert(rest[a] == list[a]);
        }
        assert forall|a: int, b: int| 0 <= a < b < rest.len() implies bits::num_le(
            magnitudes[#[trigger] rest[a]],
            magnitudes[#[trigger] rest[b]],
        ) by {
            assert(rest[a] == list[a] && rest[b] == list[b]);
        }
        lemma_placed(magnitudes, rest, i);
        let q = placed(magnitudes, rest, i);
        assert forall|a: int, b: int| 0 <= a < b < p.len() implies bits::num_le(
            magnitudes[#[trigger] p[a]],
            magnitudes[#[trigger] p[b]],
        ) by {
            if b == q.len() {
                assert(q[a] == p[a]);
                if q[a] == i {
                    assert(!bits::nan(magnitudes[i]) && !bits::nan(magnitudes[last]));
                } else {
                    let c = choose|c: int| 0 <= c < rest.len() && #[trigger] rest[c] == q[a];
                    assert(list[c] == q[a]);
                }
            } else {
                assert(q[a] == p[a] && q[b] == p[b]);
            }
        }
        assert forall|a: int| 0 <= a < p.len() implies 0 <= #[trigger] p[a]
            < magnitudes.len() by {
            if a < q.len() {
                assert(q[a] == p[a]);
            }
        }
        assert forall|a: int| 0 <= a < p.len() implies #[trigger] p[a] == i || exists|b: int|
            0 <= b < list.len() && #[trigger] list[b] == p[a] by {
            if a < q.len() {
                assert(q[a] == p[a]);
                if q[a] != i {
                    let c = choose|c: int| 0 <= c < rest.len() && #[trigger] rest[c] == q[a];
                    assert(list[c] == p[a]);
                }
            } else {
                assert(list[list.len() - 1] == p[a]);
            }
        }
        assert(list =~= rest.push(last));
        assert(p.to_multiset() =~= list.to_multiset().insert(i));
    }
}

/// The order by magnitude ascends, and holds every place once.
pub proof fn law_order_by_magnitude(magnitudes: Seq<u64>, k: int)
    requires
        all_numbers(magnitudes),
        0 <= k <= magnitudes.len(),
    ensures
        ({
            let p = by_magnitude(magnitudes, k);
            &&& p.len() == k
            &&& forall|a: int| 0 <= a < p.len() ==> 0 <= #[trigger] p[a] < magnitudes.len()
            &&& forall|a: int, b: int|
                0 <= a < b < p.len() ==> bits::num_le(
                    magnitudes[#[trigger] p[a]],
                    magnitudes[#[trigger] p[b]],
                )
            &&& p.to_multiset() == Seq::new(k as nat, |i: int| i).to_multiset()
        }),
    decreases k,
{
    broadcast use vstd::seq_lib::group_to_multiset_ensures;

    if k > 0 {
        law_order_by_magnitude(magnitudes, k - 1);
        lemma_placed(magnitudes, by_magnitude(magnitudes, k - 1), k - 1);
        let small = Seq::new((k - 1) as nat, |i: int| i);
        assert(Seq::new(k as nat, |i: int| i) =~= small.push(k - 1));
    } else {
        assert(by_magnitude(magnitudes, k) =~= Seq::new(k as nat, |i: int| i));
    }
}

/// A second-order section: which pole group it has, how many of the zeros at
/// minus one, and whether it carries the gain.
#[derive(Debug, Clone, Copy, PartialEq, Eq, Structural)]
pub struct SectionPlan {
    pub group: usize,
    pub zeros: usize,
    pub gain: bool,
}

/// The sections of a filter of this order: groups by ascending magnitude, two
/// zeros each but one in the last where the order is odd, the gain in the
/// first.
pub open spec fn section_of(order: int, magnitudes: Seq<u64>, i: int) -> SectionPlan {
    let n = magnitudes.len() as int;
    SectionPlan {
        group: by_magnitude(magnitudes, n)[i] as usize,
        zeros: if i == n - 1 && order % 2 == 1 {
            1
        } else {
            2
        },
        gain: i == 0,
    }
}

/// The zeros of the first `k` sections.
pub open spec fn zeros_upto(order: int, magnitudes: Seq<u64>, k: int) -> int
    decreases k,
{
    if k <= 0 {
        0
    } else {
        zeros_upto(order, magnitudes, k - 1) + section_of(order, magnitudes, k - 1).zeros
    }
}

/// The sections have as many zeros as the filter has poles.
pub proof fn law_zeros_distributed(order: int, magnitudes: Seq<u64>, k: int)
    requires
        0 <= k <= magnitudes.len(),
        order >= 1,
        magnitudes.len() == (order + 1) / 2,
    ensures
        zeros_upto(order, magnitudes, k) == if k == magnitudes.len() {
            order
        } else {
            2 * k
        },
    decreases k,
{
    if k > 0 {
        law_zeros_distributed(order, magnitudes, k - 1);
    }
}

proof fn lemma_placed_at(magnitudes: Seq<u64>, list: Seq<int>, i: int, p: int)
    requires
        0 <= p <= list.len(),
        forall|k: int|
            p <= k < list.len() ==> !bits::num_le(magnitudes[#[trigger] list[k]], magnitudes[i]),
        p > 0 ==> bits::num_le(magnitudes[list[p - 1]], magnitudes[i]),
    ensures
        placed(magnitudes, list, i) == list.insert(p, i),
    decreases list.len(),
{
    if p == list.len() {
        assert(list.insert(p, i) =~= list.push(i));
    } else {
        assert(!bits::num_le(magnitudes[list[list.len() - 1]], magnitudes[i]));
        let rest = list.drop_last();
        assert forall|k: int| p <= k < rest.len() implies !bits::num_le(
            magnitudes[#[trigger] rest[k]],
            magnitudes[i],
        ) by {
            assert(rest[k] == list[k]);
        }
        lemma_placed_at(magnitudes, rest, i, p);
        assert(list.insert(p, i) =~= rest.insert(p, i).push(list.last()));
    }
}

fn sort_by_magnitude(magnitudes: &[u64]) -> (r: Vec<usize>)
    requires
        magnitudes@.len() < 2 || all_numbers(magnitudes@),
    ensures
        places(r@) == by_magnitude(magnitudes@, magnitudes@.len() as int),
        r@.len() == magnitudes@.len(),
{
    let mut list: Vec<usize> = Vec::new();
    assert(places(list@) =~= Seq::empty());
    for i in 0..magnitudes.len()
        invariant
            magnitudes@.len() < 2 || all_numbers(magnitudes@),
            places(list@) == by_magnitude(magnitudes@, i as int),
            list@.len() == i,
    {
        let ghost known = places(list@);
        proof {
            if i > 0 {
                law_order_by_magnitude(magnitudes@, i as int);
            }
            assert forall|k: int| 0 <= k < list@.len() implies (#[trigger] list@[k])
                < magnitudes@.len() by {
                assert(known[k] == list@[k]);
            }
        }
        let mut p: usize = list.len();
        while p > 0 && !bits::at_most(magnitudes[list[p - 1]], magnitudes[i])
            invariant
                i < magnitudes@.len(),
                known == places(list@),
                forall|k: int|
                    0 <= k < list@.len() ==> (#[trigger] list@[k]) < magnitudes@.len(),
                p <= list@.len(),
                forall|k: int|
                    p <= k < known.len() ==> !bits::num_le(
                        magnitudes@[#[trigger] known[k]],
                        magnitudes@[i as int],
                    ),
            ensures
                p <= list@.len(),
                forall|k: int|
                    p <= k < known.len() ==> !bits::num_le(
                        magnitudes@[#[trigger] known[k]],
                        magnitudes@[i as int],
                    ),
                p > 0 ==> bits::num_le(magnitudes@[known[p - 1]], magnitudes@[i as int]),
            decreases p,
        {
            p = p - 1;
        }
        list.insert(p, i);
        proof {
            assert(places(list@) =~= known.insert(p as int, i as int));
            lemma_placed_at(magnitudes@, known, i as int, p as int);
        }
    }
    list
}

/// Plans the sections of a low-pass filter whose zeros all lie at minus one.
/// `magnitudes` are those of the pole groups.
pub fn zpk2sos_butter_lp(order: usize, magnitudes: &[u64]) -> (r: Vec<SectionPlan>)
    requires
        magnitudes@.len() == (order + 1) / 2,
        magnitudes@.len() < 2 || all_numbers(magnitudes@),
    ensures
        r@.len() == magnitudes@.len(),
        forall|i: int|
            0 <= i < r@.len() ==> #[trigger] r@[i] == section_of(order as int, magnitudes@, i),
{
    let n: usize = magnitudes.len();
    let sorted: Vec<usize> = sort_by_magnitude(magnitudes);
    let mut out: Vec<SectionPlan> = Vec::new();
    for i in 0..n
        invariant
            n == magnitudes@.len(),
            sorted@.len() == n,
            places(sorted@) == by_magnitude(magnitudes@, n as int),
            out@.len() == i,
            forall|k: int|
                0 <= k < i ==> #[trigger] out@[k] == section_of(order as int, magnitudes@, k),
    {
        assert(places(sorted@)[i as int] == sorted@[i as int]);
        let zeros: usize = if i == n - 1 && order % 2 == 1 {
            1
        } else {
            2
        };
        out.push(SectionPlan { group: sorted[i], zeros, gain: i == 0 });
    }
    out
}

/// Whether the conjugate of a pole is one other pole at most, which lies off the
/// axis as it does itself, and has it as its own conjugate.
pub open spec fn paired(on_axis: Seq<bool>, conjugate: Seq<Seq<bool>>) -> bool {
    let n = on_axis.len() as int;
    &&& forall|i: int, j: int| #![trigger conjugate[i][j]]
        0 <= i < n && 0 <= j < n && conjugate[i][j] ==> i != j && !on_axis[i] && !on_axis[j]
            && conjugate[j][i]
    &&& forall|i: int, j: int, k: int| #![trigger conjugate[i][j], conjugate[i][k]]
        0 <= i < n && 0 <= j < n && 0 <= k < n && conjugate[i][j] && conjugate[i][k] ==> j == k
}

/// Whether the conjugate of a pole stands before it.
pub open spec fn behind_its_conjugate(conjugate: Seq<Seq<bool>>, i: int) -> bool {
    exists|j: int| 0 <= j < i && #[trigger] conjugate[i][j]
}

/// Whether the places ascend.
pub open spec fn ascend(s: Seq<int>) -> bool {
    forall|a: int, b: int| 0 <= a < b < s.len() ==> #[trigger] s[a] < #[trigger] s[b]
}

proof fn lemma_no_partner(conjugate: Seq<Seq<bool>>, used: Seq<bool>, i: int, j: int)
    requires
        0 <= j,
    ensures
        partner_from(conjugate, used, i, j) is None ==> forall|p: int|
            j <= p < used.len() && !used[p] ==> !#[trigger] conjugate[i][p],
    decreases used.len() - j,
{
    if j < used.len() && !(!used[j] && conjugate[i][j]) {
        lemma_no_partner(conjugate, used, i, j + 1);
    }
}

proof fn lemma_paired(on_axis: Seq<bool>, conjugate: Seq<Seq<bool>>, k: int)
    requires
        paired(on_axis, conjugate),
        0 <= k <= on_axis.len(),
    ensures
        ({
            let s = split_upto(on_axis, conjugate, k);
            &&& s.used.len() == on_axis.len()
            &&& forall|i: int| #![trigger s.used[i]]
                0 <= i < on_axis.len() ==> s.used[i] == (i < k || exists|j: int|
                    0 <= j < k && #[trigger] conjugate[i][j])
            &&& ascend(s.reals)
            &&& ascend(s.tops)
            &&& forall|a: int| 0 <= a < s.reals.len() ==> 0 <= #[trigger] s.reals[a] < k
            &&& forall|a: int| 0 <= a < s.tops.len() ==> 0 <= #[trigger] s.tops[a] < k
            &&& forall|i: int| #![trigger on_axis[i]]
                0 <= i < k ==> s.reals.contains(i) == on_axis[i]
            &&& forall|i: int| #![trigger on_axis[i]]
                0 <= i < k ==> s.tops.contains(i) == (!on_axis[i] && !behind_its_conjugate(
                    conjugate,
                    i,
                ))
        }),
    decreases k,
{
    if k > 0 {
        lemma_paired(on_axis, conjugate, k - 1);
        let s = split_upto(on_axis, conjugate, k - 1);
        let t = split_upto(on_axis, conjugate, k);
        let i = k - 1;
        lemma_partner(conjugate, s.used, i, i + 1);
        lemma_no_partner(conjugate, s.used, i, i + 1);
        assert(s.used[i] == (exists|j: int| 0 <= j < i && #[trigger] conjugate[i][j]));
        assert(s.used[i] == behind_its_conjugate(conjugate, i));
        assert forall|m: int| #![trigger t.used[m]] 0 <= m < on_axis.len() implies t.used[m] == (m
            < k || exists|j: int| 0 <= j < k && #[trigger] conjugate[m][j]) by {
            let _ = s.used[m];
            if m >= k {
                if conjugate[m][i] {
                    assert(conjugate[i][m]);
                    assert(0 <= i < k && conjugate[m][i]);
                    if s.used[i] {
                        let j = choose|j: int| 0 <= j < i && #[trigger] conjugate[i][j];
                        assert(j == m);
                    }
                    if s.used[m] {
                        let j = choose|j: int| 0 <= j < i && #[trigger] conjugate[m][j];
                        assert(conjugate[m][j] && conjugate[m][i]);
                    }
                    assert(!on_axis[i]);
                    match partner_from(conjugate, s.used, i, i + 1) {
                        Some(p) => {
                            assert(conjugate[i][p] && conjugate[i][m]);
                        },
                        None => {},
                    }
                    assert(t.used[m]);
                } else {
                    match partner_from(conjugate, s.used, i, i + 1) {
                        Some(p) => {
                            assert(conjugate[i][p]);
                            assert(conjugate[p][i]);
                        },
                        None => {},
                    }
                    assert(t.used[m] == s.used[m]);
                    if exists|j: int| 0 <= j < k && #[trigger] conjugate[m][j] {
                        let j = choose|j: int| 0 <= j < k && #[trigger] conjugate[m][j];
                        assert(0 <= j < i && conjugate[m][j]);
                    }
                }
            }
        }
        if on_axis[i] && s.used[i] {
            let j = choose|j: int| 0 <= j < i && #[trigger] conjugate[i][j];
            assert(conjugate[i][j]);
        }
        assert forall|m: int| #![trigger on_axis[m]] 0 <= m < k implies t.reals.contains(m)
            == on_axis[m] by {
            if t.reals == s.reals.push(i) {
                assert(t.reals[s.reals.len() as int] == i);
                if m < i {
                    if s.reals.contains(m) {
                        let a = s.reals.index_of(m);
                        assert(t.reals[a] == m);
                    }
                }
            } else if m == i {
                assert(!s.reals.contains(i));
            }
        }
        assert forall|m: int| #![trigger on_axis[m]] 0 <= m < k implies t.tops.contains(m) == (
        !on_axis[m] && !behind_its_conjugate(conjugate, m)) by {
            if t.tops == s.tops.push(i) {
                assert(t.tops[s.tops.len() as int] == i);
                if m < i {
                    if s.tops.contains(m) {
                        let a = s.tops.index_of(m);
                        assert(t.tops[a] == m);
                    }
                }
            } else if m == i {
                assert(!s.tops.contains(i));
            }
        }
    }
}

/// Where the poles off the axis stand in pairs, the real poles are all those on
/// the axis, and the others are the first ones of the pairs, with those that
/// have no conjugate, all in their order.
pub proof fn law_poles_told_apart(on_axis: Seq<bool>, conjugate: Seq<Seq<bool>>)
    requires
        paired(on_axis, conjugate),
    ensures
        ({
            let s = split_upto(on_axis, conjugate, on_axis.len() as int);
            &&& ascend(s.reals)
            &&& ascend(s.tops)
            &&& forall|i: int| #![trigger s.reals.contains(i)]
                s.reals.contains(i) == (0 <= i < on_axis.len() && on_axis[i])
            &&& forall|i: int| #![trigger s.tops.contains(i)]
                s.tops.contains(i) == (0 <= i < on_axis.len() && !on_axis[i]
                    && !behind_its_conjugate(conjugate, i))
        }),
{
    let n = on_axis.len() as int;
    lemma_paired(on_axis, conjugate, n);
    let s = split_upto(on_axis, conjugate, n);
    assert forall|i: int| #![trigger s.reals.contains(i)] s.reals.contains(i) == (0 <= i < n
        && on_axis[i]) by {
        if s.reals.contains(i) {
            let a = s.reals.index_of(i);
            assert(0 <= s.reals[a] < n);
        }
        let _ = on_axis[i];
    }
    assert forall|i: int| #![trigger s.tops.contains(i)] s.tops.contains(i) == (0 <= i < n
        && !on_axis[i] && !behind_its_conjugate(conjugate, i)) by {
        if s.tops.contains(i) {
            let a = s.tops.index_of(i);
            assert(0 <= s.tops[a] < n);
        }
        let _ = on_axis[i];
    }
}

/// Whatever counts as a conjugate, a pole among the real ones lies on the axis,
/// and one among the others off it.
pub proof fn law_poles_on_axis(on_axis: Seq<bool>, conjugate: Seq<Seq<bool>>, k: int)
    requires
        0 <= k <= on_axis.len(),
    ensures
        ({
            let s = split_upto(on_axis, conjugate, k);
            &&& forall|a: int|
                0 <= a < s.reals.len() ==> 0 <= #[trigger] s.reals[a] < k && on_axis[s.reals[a]]
            &&& forall|a: int|
                0 <= a < s.tops.len() ==> 0 <= #[trigger] s.tops[a] < k && !on_axis[s.tops[a]]
        }),
    decreases k,
{
    if k > 0 {
        law_poles_on_axis(on_axis, conjugate, k - 1);
        let s = split_upto(on_axis, conjugate, k - 1);
        let t = split_upto(on_axis, conjugate, k);
        assert forall|a: int| 0 <= a < t.reals.len() implies 0 <= #[trigger] t.reals[a] < k
            && on_axis[t.reals[a]] by {
            if a < s.reals.len() {
                assert(t.reals[a] == s.reals[a]);
            }
        }
        assert forall|a: int| 0 <= a < t.tops.len() implies 0 <= #[trigger] t.tops[a] < k
            && !on_axis[t.tops[a]] by {
            if a < s.tops.len() {
                assert(t.tops[a] == s.tops[a]);
            }
        }
    }
}

proof fn lemma_placed_stable(magnitudes: Seq<u64>, list: Seq<int>, i: int)
    requires
        all_numbers(magnitudes),
        0 <= i < magnitudes.len(),
        forall|a: int| 0 <= a < list.len() ==> 0 <= #[trigger] list[a] < i,
        forall|a: int, b: int|
            0 <= a < b < list.len() && bits::num_le(
                magnitudes[#[trigger] list[b]],
                magnitudes[#[trigger] list[a]],
            ) ==> list[a] < list[b],
    ensures
        ({
            let p = placed(magnitudes, list, i);
            &&& p.len() == list.len() + 1
            &&& forall|a: int| 0 <= a < p.len() ==> 0 <= #[trigger] p[a] <= i
            &&& forall|a: int| 0 <= a < p.len() ==> #[trigger] p[a] == i || list.contains(p[a])
            &&& forall|a: int, b: int|
                0 <= a < b < p.len() && bits::num_le(
                    magnitudes[#[trigger] p[b]],
                    magnitudes[#[trigger] p[a]],
                ) ==> p[a] < p[b]
        }),
    decreases list.len(),
{
    let p = placed(magnitudes, list, i);
    if list.len() == 0 || bits::num_le(magnitudes[list.last()], magnitudes[i]) {
        assert forall|a: int| 0 <= a < p.len() implies #[trigger] p[a] == i || list.contains(
            p[a],
        ) by {
            if a < list.len() {
                assert(p[a] == list[a]);
            }
        }
    } else {
        let rest = list.drop_last();
        let last = list.last();
        assert(last == list[list.len() - 1]);
        assert forall|a: int, b: int|
            0 <= a < b < rest.len() && bits::num_le(
                magnitudes[#[trigger] rest[b]],
                magnitudes[#[trigger] rest[a]],
            ) implies rest[a] < rest[b] by {
            assert(rest[a] == list[a] && rest[b] == list[b]);
        }
        assert forall|a: int| 0 <= a < rest.len() implies 0 <= #[trigger] rest[a] < i by {
            assert(rest[a] == list[a]);
        }
        lemma_placed_stable(magnitudes, rest, i);
        let q = placed(magnitudes, rest, i);
        assert forall|a: int| 0 <= a < p.len() implies #[trigger] p[a] == i || list.contains(
            p[a],
        ) by {
            if a < q.len() {
                assert(p[a] == q[a]);
                if q[a] != i {
                    let c = rest.index_of(q[a]);
                    assert(list[c] == q[a]);
                }
            } else {
                assert(list[list.len() - 1] == p[a]);
            }
        }
        assert forall|a: int, b: int|
            0 <= a < b < p.len() && bits::num_le(
                magnitudes[#[trigger] p[b]],
                magnitudes[#[trigger] p[a]],
            ) implies p[a] < p[b] by {
            if b < q.len() {
                assert(p[a] == q[a] && p[b] == q[b]);
            } else {
                assert(p[b] == last);
                assert(p[a] == q[a]);
                if q[a] == i {
                    assert(!bits::nan(magnitudes[i]) && !bits::nan(magnitudes[last]));
                } else {
                    let c = rest.index_of(q[a]);
                    assert(list[c] == q[a] && list[list.len() - 1] == last);
                }
            }
        }
    }
}

/// Among equal magnitudes the order stays.
pub proof fn law_equal_magnitudes(magnitudes: Seq<u64>, k: int)
    requires
        all_numbers(magnitudes),
        0 <= k <= magnitudes.len(),
    ensures
        ({
            let p = by_magnitude(magnitudes, k);
            &&& p.len() == k
            &&& forall|a: int| 0 <= a < p.len() ==> 0 <= #[trigger] p[a] < k
            &&& forall|a: int, b: int|
                0 <= a < b < p.len() && bits::num_le(
                    magnitudes[#[trigger] p[b]],
                    magnitudes[#[trigger] p[a]],
                ) ==> p[a] < p[b]
        }),
    decreases k,
{
    if k > 0 {
        law_equal_magnitudes(magnitudes, k - 1);
        lemma_placed_stable(magnitudes, by_magnitude(magnitudes, k - 1), k - 1);
    }
}

/// The sections stand in the order of their magnitudes. The first alone carries
/// the gain, and each has two zeros, but for the last one of an odd order.
pub proof fn law_sections(order: int, magnitudes: Seq<u64>, i: int)
    requires
        all_numbers(magnitudes),
        0 <= i < magnitudes.len() <= usize::MAX,
    ensures
        ({
            let s = section_of(order, magnitudes, i);
            &&& s.gain == (i == 0)
            &&& s.zeros == 2 || (s.zeros == 1 && i == magnitudes.len() - 1 && order % 2 == 1)
            &&& order % 2 == 1 ==> section_of(order, magnitudes, magnitudes.len() - 1).zeros == 1
            &&& s.group < magnitudes.len()
            &&& i + 1 < magnitudes.len() ==> {
                let t = section_of(order, magnitudes, i + 1);
                bits::num_lt(magnitudes[s.group as int], magnitudes[t.group as int]) || (
                bits::num_le(magnitudes[s.group as int], magnitudes[t.group as int]) && s.group
                    < t.group)
            }
        }),
{
    let n = magnitudes.len() as int;
    law_order_by_magnitude(magnitudes, n);
    law_equal_magnitudes(magnitudes, n);
    let p = by_magnitude(magnitudes, n);
    assert(0 <= p[i] < n);
    if i + 1 < n {
        assert(0 <= p[i + 1] < n);
        assert(bits::num_le(magnitudes[p[i]], magnitudes[p[i + 1]]));
    }
}

} // verus!
