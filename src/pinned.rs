use vstd::prelude::*;
use vstd::multiset::Multiset;
use vstd::seq_lib::{to_multiset_build, to_multiset_contains, to_multiset_len};
use hashbag::HashBag;

verus! {

#[verifier::external_type_specification]
#[verifier::external_body]
#[verifier::reject_recursive_types(T)]
#[verifier::reject_recursive_types(S)]
pub struct ExHashBag<T, S>(HashBag<T, S>);

/// What a bag of candidate lists holds, each list counted as often as it was added.
pub uninterp spec fn bag_items(b: HashBag<Vec<u8>>) -> Multiset<Seq<u8>>;

/// Relies on `hashbag::HashBag::new`: a new bag holds nothing.
#[verifier::external_body]
fn new_bag() -> (r: HashBag<Vec<u8>>)
    ensures
        bag_items(r) == Multiset::<Seq<u8>>::empty(),
{
    HashBag::new()
}

/// Relies on `hashbag::HashBag::insert`: adds one occurrence of the value.
/// It also adds one to a running total of occurrences, which must not overflow.
#[verifier::external_body]
fn bag_insert(b: &mut HashBag<Vec<u8>>, v: Vec<u8>)
    requires
        bag_items(*old(b)).len() < usize::MAX,
    ensures
        bag_items(*final(b)) == bag_items(*old(b)).insert(v@),
{
    b.insert(v);
}

/// Relies on `hashbag::HashBag::set_iter`: every distinct value of the bag
/// once, with its number of occurrences, in no fixed order.
#[verifier::external_body]
fn bag_counts(b: &HashBag<Vec<u8>>) -> (r: Vec<(&Vec<u8>, usize)>)
    ensures
        forall|k: int| 0 <= k < r@.len() ==> #[trigger] r@[k].1 == bag_items(*b).count(r@[k].0@),
        forall|s: Seq<u8>|
            #[trigger] bag_items(*b).count(s) > 0 ==> exists|k: int|
                0 <= k < r@.len() && #[trigger] r@[k].0@ == s,
{
    b.set_iter().collect()
}

/// The candidate lists of a peer group, as sequences.
pub open spec fn lists_of(c: Seq<Vec<u8>>) -> Seq<Seq<u8>> {
    c.map_values(|v: Vec<u8>| v@)
}

/// How many lists of the group are exactly `s`.
pub open spec fn occurrences(groups: Seq<Seq<u8>>, s: Seq<u8>) -> nat {
    groups.to_multiset().count(s)
}

/// A list of two or more values that occurs, identical, in exactly as many
/// cells of the group as it has entries: those values are bound to those cells.
pub open spec fn is_pinned(groups: Seq<Seq<u8>>, s: Seq<u8>) -> bool {
    s.len() > 1 && occurrences(groups, s) == s.len()
}

/// `d` belongs to a pinned list of the group other than the list of cell `i`.
pub open spec fn eliminated(groups: Seq<Seq<u8>>, i: int, d: u8) -> bool {
    exists|j: int|
        0 <= j < groups.len() && is_pinned(groups, #[trigger] groups[j]) && groups[j] != groups[i]
            && groups[j].contains(d)
}

/// What is left of the candidates of cell `i` once the pinned lists are
/// taken out of every other cell.
pub open spec fn reduced(groups: Seq<Seq<u8>>, i: int) -> Set<u8> {
    groups[i].to_set().filter(|d: u8| !eliminated(groups, i, d))
}

/// Every list of `ps` is pinned in the group and is the list of one of its cells.
pub open spec fn all_pinned(groups: Seq<Seq<u8>>, ps: Seq<Vec<u8>>) -> bool {
    forall|p: int|
        #![trigger ps[p]]
        0 <= p < ps.len() ==> is_pinned(groups, ps[p]@) && exists|j: int|
            0 <= j < groups.len() && #[trigger] groups[j] == ps[p]@
}

/// Every pinned list of the group is among `ps`.
pub open spec fn has_every_pinned(groups: Seq<Seq<u8>>, ps: Seq<Vec<u8>>) -> bool {
    forall|j: int|
        0 <= j < groups.len() && is_pinned(groups, #[trigger] groups[j]) ==> exists|p: int|
            0 <= p < ps.len() && #[trigger] ps[p]@ == groups[j]
}

pub open spec fn is_ascending(s: Seq<u8>) -> bool {
    forall|i: int, j: int| 0 <= i < j < s.len() ==> s[i] < s[j]
}

fn same_list(a: &Vec<u8>, b: &Vec<u8>) -> (r: bool)
    ensures
        r == (a@ == b@),
{
    if a.len() != b.len() {
        return false;
    }
    let mut i: usize = 0;
    while i < a.len()
        invariant
            a@.len() == b@.len(),
            i <= a@.len(),
            forall|j: int| 0 <= j < i ==> a@[j] == b@[j],
        decreases a.len() - i,
    {
        if a[i] != b[i] {
            return false;
        }
        i += 1;
    }
    assert(a@ =~= b@);
    true
}

pub(crate) fn copy_list(a: &Vec<u8>) -> (r: Vec<u8>)
    ensures
        r@ == a@,
{
    let mut r: Vec<u8> = Vec::new();
    let mut i: usize = 0;
    while i < a.len()
        invariant
            i <= a@.len(),
            r@ == a@.subrange(0, i as int),
        decreases a.len() - i,
    {
        r.push(a[i]);
        assert(r@ =~= a@.subrange(0, i + 1));
        i += 1;
    }
    assert(r@ =~= a@);
    r
}

/// Within one peer group of nine cells, finds each candidate list that
/// occurs in exactly as many cells as it has entries (two or more), and
/// removes its values from every cell whose list differs from it. Returns
/// the nine reduced candidate sets in ascending order, in the order given.
pub fn reduce_candidates_by_uniqueness(candidates: Vec<Vec<u8>>) -> (r: Vec<Vec<u8>>)
    requires
        candidates@.len() == 9,
    ensures
        r@.len() == 9,
        forall|i: int|
            0 <= i < 9 ==> is_ascending(#[trigger] r@[i]@) && r@[i]@.to_set() == reduced(
                lists_of(candidates@),
                i,
            ),
{
    broadcast use {to_multiset_build, to_multiset_contains, to_multiset_len};

    let ghost groups = lists_of(candidates@);
    assert(groups.len() == 9);
    let mut bag: HashBag<Vec<u8>> = new_bag();
    let mut i: usize = 0;
    while i < 9
        invariant
            candidates@.len() == 9,
            groups == lists_of(candidates@),
            i <= 9,
            bag_items(bag) == groups.subrange(0, i as int).to_multiset(),
        decreases 9 - i,
    {
        assert(groups.subrange(0, i + 1) =~= groups.subrange(0, i as int).push(groups[i as int]));
        assert(groups[i as int] == candidates@[i as int]@);
        proof {
            to_multiset_len(groups.subrange(0, i as int));
            to_multiset_build(groups.subrange(0, i as int), groups[i as int]);
        }
        bag_insert(&mut bag, copy_list(&candidates[i]));
        i += 1;
    }
    assert(groups.subrange(0, 9) =~= groups);
    let counts = bag_counts(&bag);

    // The pinned lists, each found in the bag.
    let mut pinned: Vec<Vec<u8>> = Vec::new();
    let mut k: usize = 0;
    while k < counts.len()
        invariant
            groups == lists_of(candidates@),
            bag_items(bag) == groups.to_multiset(),
            k <= counts@.len(),
            forall|q: int| 0 <= q < counts@.len() ==> #[trigger] counts@[q].1
                == bag_items(bag).count(counts@[q].0@),
            forall|s: Seq<u8>|
                #[trigger] bag_items(bag).count(s) > 0 ==> exists|q: int|
                    0 <= q < counts@.len() && #[trigger] counts@[q].0@ == s,
            forall|p: int| 0 <= p < pinned@.len() ==> is_pinned(groups, #[trigger] pinned@[p]@),
            forall|q: int|
                0 <= q < k && is_pinned(groups, #[trigger] counts@[q].0@) ==> exists|p: int|
                    0 <= p < pinned@.len() && #[trigger] pinned@[p]@ == counts@[q].0@,
        decreases counts.len() - k,
    {
        let n = counts[k].1;
        assert(counts@[k as int].1 == n);
        let ghost old_pinned = pinned@;
        if n > 1 && n == counts[k].0.len() {
            pinned.push(copy_list(counts[k].0));
            assert(pinned@[pinned@.len() - 1]@ == counts@[k as int].0@);
        }
        assert forall|q: int|
            0 <= q < k + 1 && is_pinned(groups, #[trigger] counts@[q].0@) implies exists|p: int|
                0 <= p < pinned@.len() && #[trigger] pinned@[p]@ == counts@[q].0@ by {
            if q < k {
                let p = choose|p: int| 0 <= p < old_pinned.len() && #[trigger] old_pinned[p]@ == counts@[q].0@;
                assert(pinned@[p] == old_pinned[p]);
            } else {
                assert(pinned@[pinned@.len() - 1]@ == counts@[k as int].0@);
            }
        }
        assert forall|p: int| 0 <= p < pinned@.len() implies is_pinned(groups, #[trigger] pinned@[p]@) by {
            if p < old_pinned.len() {
                assert(pinned@[p] == old_pinned[p]);
            }
        }
        k += 1;
    }
    assert forall|j: int| 0 <= j < groups.len() && is_pinned(groups, #[trigger] groups[j]) implies exists|p: int|
        0 <= p < pinned@.len() && #[trigger] pinned@[p]@ == groups[j] by {
        assert(bag_items(bag).count(groups[j]) > 0);
        let q = choose|q: int| 0 <= q < counts@.len() && #[trigger] counts@[q].0@ == groups[j];
        assert(is_pinned(groups, counts@[q].0@));
    }
    assert forall|p: int| #![trigger pinned@[p]] 0 <= p < pinned@.len() implies is_pinned(groups, pinned@[p]@) && exists|j: int|
        0 <= j < groups.len() && #[trigger] groups[j] == pinned@[p]@ by {
        assert(is_pinned(groups, pinned@[p]@));
        assert(groups.to_multiset().count(pinned@[p]@) > 0);
        to_multiset_contains(groups, pinned@[p]@);
        assert(groups.contains(pinned@[p]@));
        let j = choose|j: int| 0 <= j < groups.len() && groups[j] == pinned@[p]@;
        assert(groups[j] == pinned@[p]@);
    }

    let mut result: Vec<Vec<u8>> = Vec::new();
    let mut i: usize = 0;
    while i < 9
        invariant
            candidates@.len() == 9,
            groups == lists_of(candidates@),
            i <= 9,
            result@.len() == i,
            all_pinned(groups, pinned@),
            has_every_pinned(groups, pinned@),
            forall|q: int|
                0 <= q < i ==> is_ascending(#[trigger] result@[q]@) && result@[q]@.to_set()
                    == reduced(groups, q),
        decreases 9 - i,
    {
        let row = reduce_one(&candidates[i], &pinned, Ghost(groups), Ghost(i as int));
        result.push(row);
        i += 1;
    }
    result
}

/// The reduced set of one cell, given every pinned list of its group.
fn reduce_one(own: &Vec<u8>, pinned: &Vec<Vec<u8>>, groups: Ghost<Seq<Seq<u8>>>, i: Ghost<int>) -> (r: Vec<u8>)
    requires
        0 <= i@ < groups@.len(),
        groups@[i@] == own@,
        all_pinned(groups@, pinned@),
        has_every_pinned(groups@, pinned@),
    ensures
        is_ascending(r@),
        r@.to_set() == reduced(groups@, i@),
{
    // keep[x]: x is a candidate of this cell not yet taken out.
    let mut keep: [bool; 256] = [false; 256];
    let mut k: usize = 0;
    while k < own.len()
        invariant
            k <= own@.len(),
            forall|x: u8| #[trigger] keep@[x as int] <==> own@.subrange(0, k as int).contains(x),
        decreases own.len() - k,
    {
        let x = own[k];
        keep[x as usize] = true;
        assert forall|y: u8| #[trigger] keep@[y as int] <==> own@.subrange(0, k + 1).contains(y) by {
            let sub = own@.subrange(0, k + 1);
            if own@.subrange(0, k as int).contains(y) {
                let q = choose|q: int| 0 <= q < k && own@.subrange(0, k as int)[q] == y;
                assert(sub[q] == y);
            }
            if sub.contains(y) && y != x {
                let q = choose|q: int| 0 <= q < k + 1 && sub[q] == y;
                assert(own@.subrange(0, k as int)[q] == y);
            }
            if y == x {
                assert(sub[k as int] == y);
            }
        }
        k += 1;
    }
    assert(own@.subrange(0, own@.len() as int) =~= own@);

    let mut p: usize = 0;
    while p < pinned.len()
        invariant
            p <= pinned@.len(),
            forall|x: u8| #[trigger] keep@[x as int] <==> (own@.contains(x) && !exists|q: int|
                0 <= q < p && pinned@[q]@ != own@ && #[trigger] pinned@[q]@.contains(x)),
        decreases pinned.len() - p,
    {
        if !same_list(&pinned[p], own) {
            let mut m: usize = 0;
            while m < pinned[p].len()
                invariant
                    p < pinned@.len(),
                    pinned@[p as int]@ != own@,
                    m <= pinned@[p as int]@.len(),
                    forall|x: u8| #[trigger] keep@[x as int] <==> (own@.contains(x) && !(exists|q: int|
                        0 <= q < p && pinned@[q]@ != own@ && #[trigger] pinned@[q]@.contains(x))
                        && !pinned@[p as int]@.subrange(0, m as int).contains(x)),
                decreases pinned@[p as int]@.len() - m,
            {
                let x = pinned[p][m];
                keep[x as usize] = false;
                assert forall|y: u8| #[trigger] keep@[y as int] <==> (own@.contains(y) && !(exists|q: int|
                    0 <= q < p && pinned@[q]@ != own@ && #[trigger] pinned@[q]@.contains(y))
                    && !pinned@[p as int]@.subrange(0, m + 1).contains(y)) by {
                    let cur = pinned@[p as int]@;
                    let sub = cur.subrange(0, m + 1);
                    if cur.subrange(0, m as int).contains(y) {
                        let q = choose|q: int| 0 <= q < m && cur.subrange(0, m as int)[q] == y;
                        assert(sub[q] == y);
                    }
                    if sub.contains(y) && y != x {
                        let q = choose|q: int| 0 <= q < m + 1 && sub[q] == y;
                        assert(cur.subrange(0, m as int)[q] == y);
                    }
                    if y == x {
                        assert(sub[m as int] == y);
                    }
                }
                m += 1;
            }
            assert(pinned@[p as int]@.subrange(0, pinned@[p as int]@.len() as int) =~= pinned@[p as int]@);
        }
        assert forall|x: u8| #[trigger] keep@[x as int] <==> (own@.contains(x) && !exists|q: int|
            0 <= q < p + 1 && pinned@[q]@ != own@ && #[trigger] pinned@[q]@.contains(x)) by {
            if exists|q: int| 0 <= q < p + 1 && pinned@[q]@ != own@ && #[trigger] pinned@[q]@.contains(x) {
                let q = choose|q: int| 0 <= q < p + 1 && pinned@[q]@ != own@ && #[trigger] pinned@[q]@.contains(x);
                if q < p {
                } else {
                    assert(q == p);
                }
            }
        }
        p += 1;
    }
    assert forall|x: u8| #[trigger] keep@[x as int] <==> reduced(groups@, i@).contains(x) by {
        if eliminated(groups@, i@, x) {
            let j = choose|j: int|
                0 <= j < groups@.len() && is_pinned(groups@, #[trigger] groups@[j]) && groups@[j] != groups@[i@]
                    && groups@[j].contains(x);
            let q = choose|q: int| 0 <= q < pinned@.len() && pinned@[q]@ == groups@[j];
            assert(pinned@[q]@.contains(x));
        }
        if exists|q: int| 0 <= q < pinned@.len() && pinned@[q]@ != own@ && #[trigger] pinned@[q]@.contains(x) {
            let q = choose|q: int| 0 <= q < pinned@.len() && pinned@[q]@ != own@ && #[trigger] pinned@[q]@.contains(x);
            let j = choose|j: int| 0 <= j < groups@.len() && #[trigger] groups@[j] == pinned@[q]@;
            assert(is_pinned(groups@, groups@[j]));
            assert(eliminated(groups@, i@, x));
        }
    }

    let mut r: Vec<u8> = Vec::new();
    let mut v: usize = 0;
    while v < 256
        invariant
            v <= 256,
            is_ascending(r@),
            forall|q: int| 0 <= q < r@.len() ==> r@[q] < v,
            forall|x: u8| #[trigger] r@.contains(x) <==> (x < v && keep@[x as int]),
        decreases 256 - v,
    {
        if keep[v] {
            let ghost before = r@;
            r.push(v as u8);
            assert forall|x: u8| #[trigger] r@.contains(x) <==> (x < v + 1 && keep@[x as int]) by {
                if x == v as u8 {
                    assert(r@[before.len() as int] == x);
                } else if r@.contains(x) {
                    let q = choose|q: int| 0 <= q < r@.len() && r@[q] == x;
                    assert(before[q] == x);
                    assert(before.contains(x));
                } else if x < v && keep@[x as int] {
                    assert(before.contains(x));
                    let q = choose|q: int| 0 <= q < before.len() && before[q] == x;
                    assert(r@[q] == x);
                }
            }
        }
        v += 1;
    }
    assert(r@.to_set() =~= reduced(groups@, i@));
    r
}

} // verus!
