use vstd::prelude::*;

verus! {

/// Whether the entry at place `a` comes before the entry at place `b` in the ranking:
/// more points come first, and of two entries with the same points the earlier one.
pub open spec fn outranks(points: Seq<u32>, a: int, b: int) -> bool {
    points[a] > points[b] || (points[a] == points[b] && a < b)
}

/// `order` lists the places from `lo` up to `hi`, each once, every place before those
/// that it outranks.
pub open spec fn ranks_range(order: Seq<usize>, points: Seq<u32>, lo: int, hi: int) -> bool {
    &&& order.len() == hi - lo
    &&& forall|k: int| 0 <= k < order.len() ==> lo <= #[trigger] order[k] < hi
    &&& forall|j: int, k: int|
        0 <= j < k < order.len() ==> outranks(
            points,
            #[trigger] order[j] as int,
            #[trigger] order[k] as int,
        )
}

/// `order` is the ranking of the entries of `points`: all their places, from the most
/// points to the fewest, entries with the same points in the order in which they stand.
pub open spec fn is_ranking(order: Seq<usize>, points: Seq<u32>) -> bool {
    ranks_range(order, points, 0, points.len() as int)
}

/// A ranking lists every place of `points`.
pub proof fn lemma_ranking_complete(order: Seq<usize>, points: Seq<u32>, place: int)
    requires
        is_ranking(order, points),
        0 <= place < points.len(),
    ensures
        exists|k: int| 0 <= k < order.len() && #[trigger] order[k] == place,
{
    let n = points.len() as int;
    let places = Seq::new(order.len(), |k: int| order[k] as int);
    assert(places.no_duplicates()) by {
        assert forall|i: int, j: int|
            0 <= i < places.len() && 0 <= j < places.len() && i != j implies places[i]
            != places[j] by {
            if i < j {
                assert(outranks(points, order[i] as int, order[j] as int));
            } else {
                assert(outranks(points, order[j] as int, order[i] as int));
            }
        }
    }
    places.unique_seq_to_set();
    vstd::set_lib::lemma_int_range(0, n);
    let range = vstd::set_lib::set_int_range(0, n);
    assert(places.to_set().subset_of(range)) by {
        assert forall|value: int| places.to_set().contains(value) implies range.contains(
            value,
        ) by {
            let k = choose|k: int| 0 <= k < places.len() && places[k] == value;
            assert(0 <= order[k] < n);
        }
    }
    vstd::set_lib::lemma_len_subset(places.to_set(), range);
    vstd::set_lib::lemma_subset_equality(places.to_set(), range);
    assert(range.contains(place));
    assert(places.to_set().contains(place));
    let k = choose|k: int| 0 <= k < places.len() && places[k] == place;
    assert(order[k] == place);
}

/// The points have one ranking only.
pub proof fn lemma_ranking_unique(first: Seq<usize>, second: Seq<usize>, points: Seq<u32>)
    requires
        is_ranking(first, points),
        is_ranking(second, points),
    ensures
        first == second,
{
    assert forall|k: int| 0 <= k < first.len() implies first[k] == second[k] by {
        lemma_ranking_agrees(first, second, points, k);
    }
    assert(first =~= second);
}

/// Two rankings of the same points agree at each place, given that they agree at
/// every place before it.
proof fn lemma_ranking_agrees(first: Seq<usize>, second: Seq<usize>, points: Seq<u32>, k: int)
    requires
        is_ranking(first, points),
        is_ranking(second, points),
        0 <= k < first.len(),
    ensures
        first[k] == second[k],
    decreases k,
{
    assert forall|j: int| 0 <= j < k implies first[j] == second[j] by {
        lemma_ranking_agrees(first, second, points, j);
    }
    lemma_ranking_complete(second, points, first[k] as int);
    lemma_ranking_complete(first, points, second[k] as int);
    let p = choose|p: int| 0 <= p < second.len() && #[trigger] second[p] == first[k];
    let q = choose|q: int| 0 <= q < first.len() && #[trigger] first[q] == second[k];
    if p < k {
        assert(first[p] == second[p]);
        assert(outranks(points, first[p] as int, first[k] as int));
    } else if q < k {
        assert(first[q] == second[q]);
        assert(outranks(points, second[q] as int, second[k] as int));
    } else if p > k && q > k {
        assert(outranks(points, second[k] as int, second[p] as int));
        assert(outranks(points, first[k] as int, first[q] as int));
    }
}

/// One ranking out of the rankings of two neighbouring ranges.
fn merge(
    points: &Vec<u32>,
    left: &Vec<usize>,
    right: &Vec<usize>,
    lo: usize,
    mid: usize,
    hi: usize,
) -> (order: Vec<usize>)
    requires
        lo <= mid <= hi <= points@.len(),
        ranks_range(left@, points@, lo as int, mid as int),
        ranks_range(right@, points@, mid as int, hi as int),
    ensures
        ranks_range(order@, points@, lo as int, hi as int),
{
    let mut order: Vec<usize> = Vec::new();
    let mut i: usize = 0;
    let mut j: usize = 0;
    while i < left.len() || j < right.len()
        invariant
            lo <= mid <= hi <= points@.len(),
            ranks_range(left@, points@, lo as int, mid as int),
            ranks_range(right@, points@, mid as int, hi as int),
            i <= left@.len(),
            j <= right@.len(),
            order@.len() == i + j,
            forall|k: int| 0 <= k < order@.len() ==> lo <= #[trigger] order@[k] < hi,
            forall|a: int, b: int|
                0 <= a < b < order@.len() ==> outranks(
                    points@,
                    #[trigger] order@[a] as int,
                    #[trigger] order@[b] as int,
                ),
            forall|a: int, b: int|
                0 <= a < order@.len() && i <= b < left@.len() ==> outranks(
                    points@,
                    #[trigger] order@[a] as int,
                    #[trigger] left@[b] as int,
                ),
            forall|a: int, b: int|
                0 <= a < order@.len() && j <= b < right@.len() ==> outranks(
                    points@,
                    #[trigger] order@[a] as int,
                    #[trigger] right@[b] as int,
                ),
        decreases left@.len() - i + right@.len() - j,
    {
        let from_left = if i < left.len() {
            if j < right.len() {
                points[left[i]] >= points[right[j]]
            } else {
                true
            }
        } else {
            false
        };
        let ghost before = order@;
        if from_left {
            let place = left[i];
            order.push(place);
            proof {
                assert forall|b: int| i + 1 <= b < left@.len() implies outranks(
                    points@,
                    place as int,
                    #[trigger] left@[b] as int,
                ) by {
                    assert(outranks(points@, left@[i as int] as int, left@[b] as int));
                }
                assert forall|b: int| j <= b < right@.len() implies outranks(
                    points@,
                    place as int,
                    #[trigger] right@[b] as int,
                ) by {
                    assert(mid <= right@[j as int] < hi);
                    assert(mid <= right@[b] < hi);
                    if b > j {
                        assert(outranks(points@, right@[j as int] as int, right@[b] as int));
                    }
                }
            }
            i += 1;
        } else {
            let place = right[j];
            order.push(place);
            proof {
                assert forall|b: int| j + 1 <= b < right@.len() implies outranks(
                    points@,
                    place as int,
                    #[trigger] right@[b] as int,
                ) by {
                    assert(outranks(points@, right@[j as int] as int, right@[b] as int));
                }
                assert forall|b: int| i <= b < left@.len() implies outranks(
                    points@,
                    place as int,
                    #[trigger] left@[b] as int,
                ) by {
                    if b > i {
                        assert(outranks(points@, left@[i as int] as int, left@[b] as int));
                    }
                }
            }
            j += 1;
        }
    }
    order
}

/// The ranking of the places from `lo` up to `hi`.
fn rank_range(points: &Vec<u32>, lo: usize, hi: usize) -> (order: Vec<usize>)
    requires
        lo <= hi <= points@.len(),
    ensures
        ranks_range(order@, points@, lo as int, hi as int),
    decreases hi - lo,
{
    let mut order: Vec<usize> = Vec::new();
    if hi - lo == 0 {
        return order;
    }
    if hi - lo == 1 {
        order.push(lo);
        return order;
    }
    let mid = lo + (hi - lo) / 2;
    let left = rank_range(points, lo, mid);
    let right = rank_range(points, mid, hi);
    merge(points, &left, &right, lo, mid, hi)
}

/// The places of `points` from the most points to the fewest; entries with the same
/// points keep the order in which they stand.
pub fn rank(points: &Vec<u32>) -> (order: Vec<usize>)
    ensures
        is_ranking(order@, points@),
{
    rank_range(points, 0, points.len())
}

} // verus!
