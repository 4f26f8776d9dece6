use vstd::prelude::*;
use vstd::set_lib::{lemma_int_range, lemma_subset_equality, set_int_range};

verus! {

/// Position `a` ranks before position `b` in `row`: it is nearer, or as near
/// and earlier. On distinct positions this is a strict total order.
pub open spec fn closer(row: Seq<i32>, a: int, b: int) -> bool {
    row[a] < row[b] || (row[a] == row[b] && a < b)
}

/// The list a node starts from: the first positions, its own left out.
pub open spec fn seed(owner: int, len: int) -> Seq<usize> {
    Seq::new(len as nat, |k: int| if k < owner { k as usize } else { (k + 1) as usize })
}

/// One more than the largest position that `seed` holds.
pub open spec fn seed_bound(owner: int, len: int) -> int {
    if owner < len {
        len + 1
    } else {
        len
    }
}

/// Every entry of `list` is a position below `upto` other than `owner`.
pub open spec fn within(owner: int, upto: int, list: Seq<usize>) -> bool {
    forall|k: int| 0 <= k < list.len() ==> 0 <= #[trigger] list[k] < upto && list[k] != owner
}

/// Each entry of `list` ranks before every later one. Such a list holds no
/// position twice and ascends by distance.
pub open spec fn ascending(row: Seq<i32>, list: Seq<usize>) -> bool {
    forall|k: int, l: int|
        0 <= k < l < list.len() ==> closer(row, #[trigger] list[k] as int, #[trigger] list[l] as int)
}

/// Every position below `upto` other than `owner` that `list` leaves out
/// ranks after every entry of `list`.
pub open spec fn rest_farther(row: Seq<i32>, owner: int, upto: int, list: Seq<usize>) -> bool {
    forall|j: int, k: int|
        0 <= j < upto && j != owner && !list.contains(j as usize) && 0 <= k < list.len()
            ==> #[trigger] closer(row, list[k] as int, j)
}

/// `list` is the ranking of the `list.len()` nearest positions among those
/// below `upto` other than `owner`.
pub open spec fn nearest(row: Seq<i32>, owner: int, upto: int, list: Seq<usize>) -> bool {
    &&& within(owner, upto, list)
    &&& ascending(row, list)
    &&& rest_farther(row, owner, upto, list)
}

/// Every position below `upto` other than `owner` is an entry of `list`.
pub open spec fn covers(owner: int, upto: int, list: Seq<usize>) -> bool {
    forall|j: int| 0 <= j < upto && j != owner ==> #[trigger] list.contains(j as usize)
}

/// No position is held twice.
pub open spec fn distinct(list: Seq<usize>) -> bool {
    forall|k: int, l: int| 0 <= k < l < list.len() ==> #[trigger] list[k] != #[trigger] list[l]
}

/// Whether position `a` ranks before position `b`.
pub fn ranks_before(row: &Vec<i32>, a: usize, b: usize) -> (r: bool)
    requires
        a < row.len(),
        b < row.len(),
    ensures
        r == closer(row@, a as int, b as int),
{
    row[a] < row[b] || (row[a] == row[b] && a < b)
}

/// The seed holds each of the first positions but the owner's, once.
pub proof fn lemma_seed(owner: int, len: int)
    requires
        0 <= owner,
        0 <= len < usize::MAX,
    ensures
        within(owner, seed_bound(owner, len), seed(owner, len)),
        covers(owner, seed_bound(owner, len), seed(owner, len)),
        distinct(seed(owner, len)),
{
    let s = seed(owner, len);
    assert forall|j: int| 0 <= j < seed_bound(owner, len) && j != owner implies #[trigger] s.contains(
        j as usize,
    ) by {
        if j < owner {
            assert(s[j] == j as usize);
        } else {
            assert(s[j - 1] == j as usize);
        }
    }
}

/// Exchanging two neighbouring entries keeps what a list holds.
pub proof fn lemma_swap(owner: int, upto: int, before: Seq<usize>, after: Seq<usize>, p: int)
    requires
        0 < p < before.len(),
        after == before.update(p, before[p - 1]).update(p - 1, before[p]),
        within(owner, upto, before),
        covers(owner, upto, before),
        distinct(before),
    ensures
        within(owner, upto, after),
        covers(owner, upto, after),
        distinct(after),
{
    assert forall|j: int| 0 <= j < upto && j != owner implies #[trigger] after.contains(
        j as usize,
    ) by {
        assert(before.contains(j as usize));
        let m = choose|m: int| 0 <= m < before.len() && before[m] == j as usize;
        if m == p {
            assert(after[p - 1] == j as usize);
        } else if m == p - 1 {
            assert(after[p] == j as usize);
        } else {
            assert(after[m] == j as usize);
        }
    }
    assert forall|k: int, l: int| 0 <= k < l < after.len() implies #[trigger] after[k]
        != #[trigger] after[l] by {
        let k0 = if k == p { p - 1 } else if k == p - 1 { p } else { k };
        let l0 = if l == p { p - 1 } else if l == p - 1 { p } else { l };
        assert(after[k] == before[k0]);
        assert(after[l] == before[l0]);
        if k0 < l0 {
            assert(before[k0] != before[l0]);
        } else {
            assert(before[l0] != before[k0]);
        }
    }
}

/// Putting a new position `j` at slot `pos`, moving the later entries one
/// slot on and dropping the last, keeps the list the ranking of the nearest.
pub proof fn lemma_insert(
    row: Seq<i32>,
    owner: int,
    j: int,
    before: Seq<usize>,
    pos: int,
    after: Seq<usize>,
)
    requires
        nearest(row, owner, j, before),
        j != owner,
        0 <= j <= usize::MAX,
        0 <= pos < before.len(),
        after.len() == before.len(),
        forall|k: int| 0 <= k < pos ==> after[k] == before[k],
        after[pos] == j as usize,
        forall|k: int| pos < k < before.len() ==> after[k] == before[k - 1],
        forall|k: int| 0 <= k < pos ==> row[before[k] as int] <= row[j],
        forall|k: int| pos <= k < before.len() ==> row[before[k] as int] > row[j],
    ensures
        nearest(row, owner, j + 1, after),
{
    let last = before.len() - 1;
    let out = before[last] as int;
    assert forall|k: int, l: int| 0 <= k < l < after.len() implies closer(
        row,
        #[trigger] after[k] as int,
        #[trigger] after[l] as int,
    ) by {
        if l < pos {
            assert(closer(row, before[k] as int, before[l] as int));
        } else if l == pos {
            assert(before[k] < j);
        } else if k < pos {
            assert(closer(row, before[k] as int, before[l - 1] as int) || k == l - 1);
        } else if k == pos {
            assert(row[before[l - 1] as int] > row[j]);
        } else {
            assert(closer(row, before[k - 1] as int, before[l - 1] as int));
        }
    }
    assert forall|k: int| 0 <= k < after.len() implies closer(row, #[trigger] after[k] as int, out) by {
        if k < pos {
            assert(closer(row, before[k] as int, out) || k == last);
        } else if k == pos {
            assert(row[before[last] as int] > row[j]);
        } else {
            assert(closer(row, before[k - 1] as int, out) || k - 1 == last);
        }
    }
    assert forall|x: int, k: int|
        0 <= x < j + 1 && x != owner && !after.contains(x as usize) && 0 <= k < after.len() implies #[trigger] closer(
        row,
        after[k] as int,
        x,
    ) by {
        assert(after[pos] == j as usize);
        assert(x != j);
        assert(closer(row, after[k] as int, out));
        if before.contains(x as usize) {
            let m = choose|m: int| 0 <= m < before.len() && before[m] == x as usize;
            if m < pos {
                assert(after[m] == x as usize);
            } else if m < last {
                assert(after[m + 1] == x as usize);
            }
            assert(x == out);
        } else {
            assert(closer(row, before[last] as int, x));
        }
    }
}

/// Leaving out a new position `j` that ranks after every entry keeps the list
/// the ranking of the nearest.
pub proof fn lemma_skip(row: Seq<i32>, owner: int, j: int, list: Seq<usize>)
    requires
        nearest(row, owner, j, list),
        j == owner || forall|k: int| 0 <= k < list.len() ==> row[#[trigger] list[k] as int] <= row[j],
    ensures
        nearest(row, owner, j + 1, list),
{
    assert forall|x: int, k: int|
        0 <= x < j + 1 && x != owner && !list.contains(x as usize) && 0 <= k < list.len() implies #[trigger] closer(
        row,
        list[k] as int,
        x,
    ) by {
        if x == j {
            assert(list[k] < j);
        }
    }
}

/// A list without repeats that is one shorter than the number of positions
/// holds every position but the owner's.
pub proof fn lemma_one_short_is_complete(owner: int, upto: int, list: Seq<usize>)
    requires
        0 <= owner < upto,
        within(owner, upto, list),
        distinct(list),
        list.len() == upto - 1,
    ensures
        covers(owner, upto, list),
{
    let positions = list.map_values(|p: usize| p as int);
    let others = set_int_range(0, upto).remove(owner);
    assert(positions.no_duplicates()) by {
        assert forall|k: int, l: int|
            0 <= k < positions.len() && 0 <= l < positions.len() && k != l implies positions[k]
            != positions[l] by {
            if k < l {
                assert(list[k] != list[l]);
            } else {
                assert(list[l] != list[k]);
            }
        }
    }
    positions.unique_seq_to_set();
    lemma_int_range(0, upto);
    assert(positions.to_set().subset_of(others)) by {
        assert forall|x: int| positions.to_set().contains(x) implies others.contains(x) by {
            let k = choose|k: int| 0 <= k < positions.len() && positions[k] == x;
            assert(list[k] as int == x);
        }
    }
    lemma_subset_equality(positions.to_set(), others);
    assert forall|j: int| 0 <= j < upto && j != owner implies #[trigger] list.contains(j as usize) by {
        assert(others.contains(j));
        assert(positions.to_set().contains(j));
        let k = choose|k: int| 0 <= k < positions.len() && positions[k] == j;
        assert(list[k] == j as usize);
    }
}

/// Two rankings of the nearest positions agree at slot `slot`.
pub proof fn lemma_nearest_agree(
    row: Seq<i32>,
    owner: int,
    upto: int,
    first: Seq<usize>,
    second: Seq<usize>,
    slot: int,
)
    requires
        nearest(row, owner, upto, first),
        nearest(row, owner, upto, second),
        first.len() == second.len(),
        0 <= slot < first.len(),
    ensures
        first[slot] == second[slot],
    decreases slot,
{
    assert forall|k: int| 0 <= k < slot implies first[k] == second[k] by {
        lemma_nearest_agree(row, owner, upto, first, second, k);
    }
    let a = first[slot];
    let b = second[slot];
    if a != b {
        assert(closer(row, b as int, a as int)) by {
            if second.contains(a) {
                let l = choose|l: int| 0 <= l < second.len() && second[l] == a;
                if l < slot {
                    assert(closer(row, first[l] as int, first[slot] as int));
                }
                assert(closer(row, second[slot] as int, second[l] as int));
            }
        }
        assert(closer(row, a as int, b as int)) by {
            if first.contains(b) {
                let l = choose|l: int| 0 <= l < first.len() && first[l] == b;
                if l < slot {
                    assert(closer(row, second[l] as int, second[slot] as int));
                }
                assert(closer(row, first[slot] as int, first[l] as int));
            }
        }
    }
}

/// The ranking of the nearest positions is determined: two lists of one
/// length that both are it are equal.
pub proof fn lemma_nearest_is_unique(
    row: Seq<i32>,
    owner: int,
    upto: int,
    first: Seq<usize>,
    second: Seq<usize>,
)
    requires
        nearest(row, owner, upto, first),
        nearest(row, owner, upto, second),
        first.len() == second.len(),
    ensures
        first == second,
{
    assert forall|k: int| 0 <= k < first.len() implies first[k] == second[k] by {
        lemma_nearest_agree(row, owner, upto, first, second, k);
    }
    assert(first =~= second);
}

/// An ascending list holds no position twice and its distances do not fall.
pub proof fn lemma_ascending(row: Seq<i32>, list: Seq<usize>)
    requires
        ascending(row, list),
    ensures
        distinct(list),
        list.no_duplicates(),
        forall|k: int, l: int|
            0 <= k < l < list.len() ==> row[#[trigger] list[k] as int] <= row[#[trigger] list[l] as int],
{
    assert forall|k: int, l: int| 0 <= k < l < list.len() implies #[trigger] list[k] != #[trigger] list[l]
        && row[list[k] as int] <= row[list[l] as int] by {
        assert(closer(row, list[k] as int, list[l] as int));
    }
    assert forall|k: int, l: int| 0 <= k < list.len() && 0 <= l < list.len() && k != l implies list[k]
        != list[l] by {
        if k < l {
            assert(closer(row, list[k] as int, list[l] as int));
        } else {
            assert(closer(row, list[l] as int, list[k] as int));
        }
    }
}

} // verus!
