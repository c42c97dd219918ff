//! Random scattering over the entries of a vector, away from a whitelist.
use vstd::prelude::*;
use rand::RngCore;
use vstd::set_lib::range_set_properties;
use std::collections::BTreeSet;
use vstd::std_specs::btree::increasing_seq;
use vstd::std_specs::cmp::OrdSpec;
use vstd::std_specs::iter::IteratorSpec;

verus! {

/// The members of `chosen` that are smaller than `r`.
pub open spec fn below(chosen: Set<usize>, r: usize) -> Set<usize> {
    chosen.filter(|c: usize| c < r)
}

/// Whether `r` is the free index with exactly `n` free indices before it:
/// `r` is not chosen, and of the `r` indices below it all but `n` are.
pub open spec fn is_nth_free(chosen: Set<usize>, n: usize, r: usize) -> bool {
    &&& !chosen.contains(r)
    &&& r - below(chosen, r).len() == n
}

/// There is one such index at most: of two free indices the larger one has
/// more free indices before it.
pub proof fn lemma_nth_free_unique(chosen: Set<usize>, n: usize, r1: usize, r2: usize)
    requires
        chosen.finite(),
        is_nth_free(chosen, n, r1),
        is_nth_free(chosen, n, r2),
    ensures
        r1 == r2,
{
    if r1 < r2 {
        lemma_more_free_below(chosen, r1, r2);
    } else if r2 < r1 {
        lemma_more_free_below(chosen, r2, r1);
    }
}

proof fn lemma_more_free_below(chosen: Set<usize>, lo: usize, hi: usize)
    requires
        chosen.finite(),
        !chosen.contains(lo),
        lo < hi,
    ensures
        lo - below(chosen, lo).len() < hi - below(chosen, hi).len(),
{
    let between = Set::<usize>::range((lo + 1) as usize, hi);
    range_set_properties::<usize>((lo + 1) as usize, hi);
    let low = below(chosen, lo);
    let high = below(chosen, hi);
    assert(low.finite()) by {
        vstd::set_lib::lemma_len_subset(low, chosen);
    }
    assert(high.subset_of(low + between));
    vstd::set_lib::lemma_len_union(low, between);
    vstd::set_lib::lemma_len_subset(high, low + between);
}

/// In an increasing sequence the members below `r` are a prefix, and they
/// are as many as that prefix is long.
proof fn lemma_below_is_prefix(s: Seq<usize>, j: int, r: usize)
    requires
        0 <= j <= s.len(),
        s.no_duplicates(),
        forall|k: int| 0 <= k < j ==> s[k] < r,
        forall|k: int| j <= k < s.len() ==> s[k] > r,
    ensures
        below(s.to_set(), r).len() == j,
        !s.to_set().contains(r),
{
    let p = s.subrange(0, j);
    assert(p.no_duplicates());
    p.unique_seq_to_set();
    assert(below(s.to_set(), r) =~= p.to_set()) by {
        assert forall|c: usize| below(s.to_set(), r).contains(c) implies p.to_set().contains(
            c,
        ) by {
            let k = choose|k: int| 0 <= k < s.len() && s[k] == c;
            assert(k < j);
            assert(p[k] == c);
        }
        assert forall|c: usize| p.to_set().contains(c) implies below(s.to_set(), r).contains(
            c,
        ) by {
            let k = choose|k: int| 0 <= k < p.len() && p[k] == c;
            assert(s[k] == c);
        }
    }
}

/// The free index that has `n` free indices before it: starting from `n`,
/// every chosen index that is not above the candidate moves it up by one.
pub fn nth_free_index(chosen: &BTreeSet<usize>, n: usize) -> (r: usize)
    requires
        n + chosen@.len() <= usize::MAX,
    ensures
        is_nth_free(chosen@, n, r),
        n <= r <= n + chosen@.len(),
{
    broadcast use vstd::std_specs::btree::group_btree_axioms;
    broadcast use vstd::laws_cmp::group_laws_cmp;

    let mut r = n;
    let ghost mut passed: int = 0;
    let ghost s: Seq<usize> = vstd::std_specs::btree::spec_btree_keys_iter(chosen).remaining().unref();
    for wl in it: chosen.iter()
        invariant_except_break
            r == n + it.index(),
            passed == it.index(),
            forall|k: int| 0 <= k < it.index() ==> *it.seq()[k] < r,
        invariant
            it.seq().len() == chosen@.len(),
            it.seq().unref() == s,
            s.to_set() == chosen@,
            it.seq().no_duplicates(),
            n + chosen@.len() <= usize::MAX,
            increasing_seq(it.seq()),
        ensures
            0 <= passed <= s.len(),
            r == n + passed,
            s.no_duplicates(),
            forall|k: int| 0 <= k < passed ==> s[k] < r,
            forall|k: int| passed <= k < s.len() ==> s[k] > r,
    {
        if *wl <= r {
            r = r + 1;
            proof {
                passed = passed + 1;
            }
        } else {
            proof {
                assert(vstd::laws_cmp::obeys_cmp::<&usize>());
                vstd::std_specs::btree::axiom_increasing_seq_meaning::<&usize>(it.seq());
                assert forall|k: int| passed <= k < it.seq().len() implies *it.seq()[k] > r by {
                    if passed < k {
                        assert(OrdSpec::cmp_spec(&it.seq()[passed], &it.seq()[k]) is Less);
                    }
                }
            }
            break ;
        }
    }
    proof {
        lemma_below_is_prefix(s, passed, r);
    }
    r
}

/// Adds `i` to the set.
fn insert_index(chosen: &mut BTreeSet<usize>, i: usize)
    ensures
        final(chosen)@ == old(chosen)@.insert(i),
{
    broadcast use vstd::laws_cmp::group_laws_cmp;

    chosen.insert(i);
}

/// The number of indices in the set.
fn count_indices(chosen: &BTreeSet<usize>) -> (n: usize)
    ensures
        n == chosen@.len(),
{
    broadcast use vstd::std_specs::btree::group_btree_axioms;
    broadcast use vstd::laws_cmp::group_laws_cmp;

    chosen.len()
}

/// The next 32 bits from the calling thread's random generator,
/// `rand::rng().next_u32()`. Nothing is claimed of the value.
#[verifier::external_body]
fn next_random_u32() -> u32 {
    rand::rng().next_u32()
}

/// The free index that a random draw stands for. The draw is reduced
/// modulo the number of free indices below `size`, and the free index with
/// that many free indices before it is the result.
pub fn pick_free_index(chosen: &BTreeSet<usize>, size: usize, draw: u32) -> (r: usize)
    requires
        chosen@.len() < size,
    ensures
        is_nth_free(chosen@, (draw as int % (size - chosen@.len())) as usize, r),
        r < size,
{
    let free = size - count_indices(chosen);
    let n = draw as usize % free;
    nth_free_index(chosen, n)
}

/// Carries out one draw: finds the free index that the draw stands for
/// among the entries of `out`, writes `value` there and marks the index as
/// chosen. Returns the index.
pub fn place_draw<T: Copy>(
    out: &mut Vec<T>,
    chosen: &mut BTreeSet<usize>,
    draw: u32,
    value: T,
) -> (r: usize)
    requires
        old(chosen)@.len() < old(out).len(),
    ensures
        is_nth_free(
            old(chosen)@,
            (draw as int % (old(out).len() - old(chosen)@.len())) as usize,
            r,
        ),
        r < old(out).len(),
        final(out)@ == old(out)@.update(r as int, value),
        final(chosen)@ == old(chosen)@.insert(r),
{
    let r = pick_free_index(chosen, out.len(), draw);
    out[r] = value;
    insert_index(chosen, r);
    r
}

/// Whether `out` holds `size` entries, `value` at the indices in `picked`
/// and `init_value` elsewhere, where `picked` is a set of `fills` indices
/// below `size` that avoids `whitelist`.
pub open spec fn is_fill<T>(
    out: Seq<T>,
    picked: Set<usize>,
    whitelist: Set<usize>,
    size: usize,
    fills: usize,
    init_value: T,
    value: T,
) -> bool {
    &&& picked.finite()
    &&& picked.len() == fills
    &&& forall|i: usize| picked.contains(i) ==> i < size && !whitelist.contains(i)
    &&& out.len() == size
    &&& forall|i: usize|
        i < size ==> #[trigger] out[i as int] == (if picked.contains(i) {
            value
        } else {
            init_value
        })
}

/// A vector of `size` copies of `x`.
fn repeated<T: Copy>(x: T, size: usize) -> (out: Vec<T>)
    ensures
        out.len() == size,
        forall|i: int| 0 <= i < size ==> out[i] == x,
{
    let mut out: Vec<T> = Vec::with_capacity(size);
    let mut k: usize = 0;
    while k < size
        invariant
            k <= size,
            out.len() == k,
            forall|i: int| 0 <= i < k ==> out[i] == x,
        decreases size - k,
    {
        out.push(x);
        k += 1;
    }
    out
}

/// Scatters `fills` copies of `value` over `size` entries that otherwise
/// hold `init_value`, at random indices that avoid the whitelist.
///
/// Each index is found without retries: a draw below the number of free
/// indices is moved past the indices already taken. When more than half of
/// the entries are to be filled, the complement is scattered instead, so
/// that the number of draws never exceeds half the size.
pub fn fill_random<T: PartialEq + Copy>(
    whitelisted: Vec<usize>,
    size: usize,
    fills: usize,
    init_value: T,
    value: T,
) -> (ret: Vec<T>)
    requires
        forall|k: int| 0 <= k < whitelisted.len() ==> whitelisted[k] < size,
        fills + whitelisted@.to_set().len() <= size,
    ensures
        exists|picked: Set<usize>|
            is_fill(ret@, picked, whitelisted@.to_set(), size, fills, init_value, value),
{
    let ghost wl: Set<usize> = whitelisted@.to_set();
    let mut chosen: BTreeSet<usize> = BTreeSet::new();
    let mut k: usize = 0;
    while k < whitelisted.len()
        invariant
            k <= whitelisted.len(),
            chosen@ == whitelisted@.subrange(0, k as int).to_set(),
        decreases whitelisted.len() - k,
    {
        insert_index(&mut chosen, whitelisted[k]);
        proof {
            let a = whitelisted@.subrange(0, k as int);
            let b = whitelisted@.subrange(0, k + 1);
            assert(b == a.push(whitelisted[k as int]));
            assert(b.to_set() =~= a.to_set().insert(whitelisted[k as int])) by {
                assert forall|x: usize| b.to_set().contains(x) implies a.to_set().insert(
                    whitelisted[k as int],
                ).contains(x) by {
                    let j = choose|j: int| 0 <= j < b.len() && b[j] == x;
                    if j < k {
                        assert(a[j] == x);
                    }
                }
                assert forall|x: usize|
                    a.to_set().insert(whitelisted[k as int]).contains(x) implies b.to_set().contains(
                    x,
                ) by {
                    if a.to_set().contains(x) {
                        let j = choose|j: int| 0 <= j < a.len() && a[j] == x;
                        assert(b[j] == x);
                    } else {
                        assert(b[k as int] == x);
                    }
                }
            }
        }
        k += 1;
    }
    proof {
        assert(whitelisted@.subrange(0, k as int) == whitelisted@);
        vstd::seq_lib::seq_to_set_is_finite(whitelisted@);
        assert forall|x: usize| wl.contains(x) implies x < size by {
            let j = choose|j: int| 0 <= j < whitelisted.len() && whitelisted[j] == x;
        }
    }
    let flip = fills > size / 2;
    let (count, init, val) = if flip {
        (size - fills - count_indices(&chosen), value, init_value)
    } else {
        (fills, init_value, value)
    };
    let mut ret = repeated(init, size);
    if flip {
        let mut j: usize = 0;
        while j < whitelisted.len()
            invariant
                j <= whitelisted.len(),
                ret.len() == size,
                forall|k: int| 0 <= k < whitelisted.len() ==> whitelisted[k] < size,
                forall|i: int|
                    0 <= i < size ==> ret[i] == (if whitelisted@.subrange(0, j as int).contains(
                        i as usize,
                    ) {
                        val
                    } else {
                        init
                    }),
            decreases whitelisted.len() - j,
        {
            ret[whitelisted[j]] = val;
            proof {
                let a = whitelisted@.subrange(0, j as int);
                let b = whitelisted@.subrange(0, j + 1);
                assert(b == a.push(whitelisted[j as int]));
                assert forall|i: int| 0 <= i < size implies ret[i] == (if b.contains(i as usize) {
                    val
                } else {
                    init
                }) by {
                    if a.contains(i as usize) {
                        let t = choose|t: int| 0 <= t < a.len() && a[t] == i as usize;
                        assert(b[t] == i as usize);
                    }
                    if i == whitelisted[j as int] {
                        assert(b[j as int] == i as usize);
                    }
                    if b.contains(i as usize) && i != whitelisted[j as int] {
                        let t = choose|t: int| 0 <= t < b.len() && b[t] == i as usize;
                        assert(a[t] == i as usize);
                    }
                }
            }
            j += 1;
        }
        proof {
            assert(whitelisted@.subrange(0, j as int) == whitelisted@);
        }
    }
    let ghost mut picked: Set<usize> = Set::empty();
    let mut done: usize = 0;
    while done < count
        invariant
            done <= count,
            wl.finite(),
            wl == whitelisted@.to_set(),
            count + wl.len() <= size,
            picked.finite(),
            picked.len() == done,
            picked.disjoint(wl),
            chosen@ == wl + picked,
            forall|x: usize| picked.contains(x) ==> x < size,
            ret.len() == size,
            forall|i: int|
                0 <= i < size ==> ret[i] == (if picked.contains(i as usize) || (flip
                    && wl.contains(i as usize)) {
                    val
                } else {
                    init
                }),
        decreases count - done,
    {
        proof {
            vstd::set_lib::lemma_set_disjoint_lens(wl, picked);
        }
        let draw = next_random_u32();
        let r = place_draw(&mut ret, &mut chosen, draw, val);
        proof {
            assert(!picked.contains(r) && !wl.contains(r));
            picked = picked.insert(r);
            assert(chosen@ =~= wl + picked);
        }
        done += 1;
    }
    proof {
        vstd::set_lib::lemma_set_disjoint_lens(wl, picked);
        if flip {
            let all = Set::<usize>::range(0, size);
            range_set_properties::<usize>(0, size);
            let rest = all.difference(chosen@);
            assert(chosen@.subset_of(all));
            vstd::set_lib::lemma_set_difference_len(all, chosen@);
            assert(all.intersect(chosen@) =~= chosen@);
            assert(is_fill(ret@, rest, wl, size, fills, init_value, value));
        } else {
            assert(is_fill(ret@, picked, wl, size, fills, init_value, value));
        }
    }
    ret
}

} // verus!
