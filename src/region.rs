//! From the positions that passed selection to one contiguous interval.

use crate::error::RegionError;
use vstd::prelude::*;

verus! {

/// The indices at which `mask` holds, in increasing order.
pub open spec fn selected(mask: Seq<bool>) -> Seq<usize>
    decreases mask.len(),
{
    if mask.len() == 0 {
        Seq::empty()
    } else if mask.last() {
        selected(mask.drop_last()).push((mask.len() - 1) as usize)
    } else {
        selected(mask.drop_last())
    }
}

/// Strictly increasing.
pub open spec fn increasing(s: Seq<usize>) -> bool {
    forall|i: int, j: int| 0 <= i < j < s.len() ==> s[i] < s[j]
}

/// Each element is its predecessor plus one.
pub open spec fn contiguous(s: Seq<usize>) -> bool {
    forall|k: int| 0 < k < s.len() ==> #[trigger] s[k] as int == s[k - 1] + 1
}

/// `s[i..=j]` is a run of consecutive integers.
pub open spec fn is_run(s: Seq<usize>, i: int, j: int) -> bool {
    &&& 0 <= i <= j < s.len()
    &&& forall|k: int| i < k <= j ==> #[trigger] s[k] as int == s[k - 1] + 1
}

/// `s[i..=j]` is the longest run of `s`, and the first among runs as long.
pub open spec fn longest_run_at(s: Seq<usize>, i: int, j: int) -> bool {
    &&& is_run(s, i, j)
    &&& forall|i2: int, j2: int|
        #[trigger] is_run(s, i2, j2) ==> j2 - i2 < j - i || (j2 - i2 == j - i && i <= i2)
}

/// The first longest run of consecutive integers in `s`; empty for an empty `s`.
pub open spec fn longest_run(s: Seq<usize>) -> Seq<usize> {
    if exists|i: int, j: int| longest_run_at(s, i, j) {
        let (i, j) = choose|i: int, j: int| longest_run_at(s, i, j);
        s.subrange(i, j + 1)
    } else {
        Seq::empty()
    }
}

/// The run that a selected position set resolves to.
pub open spec fn resolved(s: Seq<usize>) -> Result<Seq<usize>, RegionError> {
    if s.len() == 0 {
        Err(RegionError::NoContiguousRegion)
    } else if contiguous(s) {
        Ok(s)
    } else {
        Ok(longest_run(s))
    }
}

/// `v` is the least element of `s`.
pub open spec fn is_least(s: Seq<usize>, v: usize) -> bool {
    s.contains(v) && forall|k: int| 0 <= k < s.len() ==> v <= #[trigger] s[k]
}

/// `v` is the greatest element of `s`.
pub open spec fn is_greatest(s: Seq<usize>, v: usize) -> bool {
    s.contains(v) && forall|k: int| 0 <= k < s.len() ==> #[trigger] s[k] <= v
}

/// All elements of `s` are equal.
pub open spec fn all_equal(s: Seq<usize>) -> bool {
    forall|i: int, j: int| 0 <= i < s.len() && 0 <= j < s.len() ==> s[i] == s[j]
}

/// The interval `[min, max]` that a selection mask resolves to.
pub open spec fn region_of(mask: Seq<bool>) -> Result<(usize, usize), RegionError> {
    match resolved(selected(mask)) {
        Err(e) => Err(e),
        Ok(run) => if run.len() == 1 {
            Err(RegionError::DegenerateThreshold)
        } else {
            Ok((run[0], run.last()))
        },
    }
}

/// What `selected` holds: the indices at which the mask holds, each once, in
/// increasing order.
pub proof fn lemma_selected(mask: Seq<bool>)
    requires
        mask.len() <= usize::MAX,
    ensures
        increasing(selected(mask)),
        forall|k: int| 0 <= k < selected(mask).len() ==> #[trigger] selected(mask)[k] < mask.len(),
        forall|i: int| 0 <= i < mask.len() ==> (mask[i] <==> selected(mask).contains(i as usize)),
    decreases mask.len(),
{
    if mask.len() > 0 {
        let rest = mask.drop_last();
        let sr = selected(rest);
        let sm = selected(mask);
        let last = (mask.len() - 1) as usize;
        lemma_selected(rest);
        if mask.last() {
            assert(sm == sr.push(last));
            assert forall|i: int, j: int| 0 <= i < j < sm.len() implies sm[i] < sm[j] by {
                if j == sm.len() - 1 {
                    assert(sm[i] == sr[i]);
                    assert(sr[i] < rest.len());
                } else {
                    assert(sm[i] == sr[i] && sm[j] == sr[j]);
                }
            }
            assert forall|k: int| 0 <= k < sm.len() implies #[trigger] sm[k] < mask.len() by {
                if k < sr.len() {
                    assert(sm[k] == sr[k]);
                }
            }
        }
        assert forall|i: int| 0 <= i < mask.len() implies (mask[i] <==> sm.contains(
            i as usize,
        )) by {
            if i < mask.len() - 1 {
                assert(mask[i] == rest[i]);
                if sm.contains(i as usize) {
                    let k = choose|k: int| 0 <= k < sm.len() && sm[k] == i as usize;
                    if k < sr.len() {
                        assert(sr[k] == i as usize);
                    } else {
                        assert(sm[k] == last);
                    }
                }
                if rest[i] {
                    let k = choose|k: int| 0 <= k < sr.len() && sr[k] == i as usize;
                    assert(sm[k] == i as usize);
                }
            } else if mask[i] {
                assert(sm[sm.len() - 1] == i as usize);
            } else {
                if sm.contains(i as usize) {
                    let k = choose|k: int| 0 <= k < sm.len() && sm[k] == i as usize;
                    assert(sr[k] < rest.len());
                }
            }
        }
    }
}

/// The positions at which `mask` holds, in increasing order.
pub fn selected_positions(mask: &Vec<bool>) -> (r: Vec<usize>)
    ensures
        r@ == selected(mask@),
        increasing(r@),
        forall|i: int| 0 <= i < mask@.len() ==> (mask@[i] <==> r@.contains(i as usize)),
        forall|k: int| 0 <= k < r@.len() ==> #[trigger] r@[k] < mask@.len(),
{
    let mut r: Vec<usize> = Vec::new();
    let mut i: usize = 0;
    while i < mask.len()
        invariant
            i <= mask@.len(),
            r@ == selected(mask@.subrange(0, i as int)),
        decreases mask@.len() - i,
    {
        proof {
            assert(mask@.subrange(0, i + 1).drop_last() =~= mask@.subrange(0, i as int));
        }
        if mask[i] {
            r.push(i);
        }
        i = i + 1;
    }
    proof {
        assert(mask@.subrange(0, mask@.len() as int) =~= mask@);
        lemma_selected(mask@);
    }
    r
}

/// Whether each element of `array` is its predecessor plus one.
pub fn is_contiguous(array: &Vec<usize>) -> (r: bool)
    ensures
        r == contiguous(array@),
{
    let mut k: usize = 1;
    while k < array.len()
        invariant
            1 <= k,
            forall|m: int| 0 < m < k && m < array@.len() ==> #[trigger] array@[m] as int == array@[m
                - 1] + 1,
        decreases array@.len() - k,
    {
        if array[k - 1] == usize::MAX || array[k] != array[k - 1] + 1 {
            assert(!(array@[k as int] as int == array@[k - 1] + 1));
            return false;
        }
        k = k + 1;
    }
    true
}

/// Two longest runs are the same run.
proof fn lemma_longest_run_unique(s: Seq<usize>, i: int, j: int, i2: int, j2: int)
    requires
        longest_run_at(s, i, j),
        longest_run_at(s, i2, j2),
    ensures
        i == i2 && j == j2,
{
    assert(is_run(s, i2, j2));
    assert(is_run(s, i, j));
}

/// A longest run is contiguous.
proof fn lemma_run_contiguous(s: Seq<usize>, i: int, j: int)
    requires
        is_run(s, i, j),
    ensures
        contiguous(s.subrange(i, j + 1)),
{
    let r = s.subrange(i, j + 1);
    assert forall|k: int| 0 < k < r.len() implies #[trigger] r[k] as int == r[k - 1] + 1 by {
        assert(r[k] == s[i + k] && r[k - 1] == s[i + k - 1]);
    }
}

/// The first longest run of consecutive integers in `array`, found in one
/// left-to-right scan; empty for an empty `array`.
pub fn find_longest_contiguous(array: &Vec<usize>) -> (r: Vec<usize>)
    ensures
        r@ == longest_run(array@),
        array@.len() > 0 ==> r@.len() > 0 && contiguous(r@),
{
    let ghost s = array@;
    let n = array.len();
    if n == 0 {
        proof {
            if exists|i: int, j: int| longest_run_at(s, i, j) {
                let (i, j) = choose|i: int, j: int| longest_run_at(s, i, j);
                assert(is_run(s, i, j));
            }
        }
        return Vec::new();
    }
    let mut start: usize = 0;
    let mut best_i: usize = 0;
    let mut best_j: usize = 0;
    let mut k: usize = 1;
    while k < n
        invariant
            s == array@,
            n == s.len(),
            1 <= k <= n,
            start < k,
            is_run(s, start as int, k - 1),
            start == 0 || s[start as int] as int != s[start - 1] + 1,
            is_run(s, best_i as int, best_j as int),
            best_j < k,
            forall|i2: int, j2: int|
                #[trigger] is_run(s, i2, j2) && j2 < k ==> j2 - i2 < best_j - best_i || (j2 - i2
                    == best_j - best_i && best_i <= i2),
        decreases n - k,
    {
        let ghost (oi, oj, os) = (best_i as int, best_j as int, start as int);
        if array[k - 1] < usize::MAX && array[k] == array[k - 1] + 1 {
            assert(is_run(s, os, k as int));
            if k - start > best_j - best_i {
                best_i = start;
                best_j = k;
            }
            proof {
                assert forall|i2: int, j2: int| #[trigger]
                    is_run(s, i2, j2) && j2 < k + 1 implies j2 - i2 < best_j - best_i || (j2 - i2
                    == best_j - best_i && best_i <= i2) by {
                    if j2 == k {
                        if i2 < os {
                            assert(s[os] as int == s[os - 1] + 1);
                        }
                    } else {
                        assert(j2 - i2 < oj - oi || (j2 - i2 == oj - oi && oi <= i2));
                    }
                }
            }
        } else {
            assert(!(s[k as int] as int == s[k - 1] + 1));
            start = k;
            proof {
                assert forall|i2: int, j2: int| #[trigger]
                    is_run(s, i2, j2) && j2 < k + 1 implies j2 - i2 < best_j - best_i || (j2 - i2
                    == best_j - best_i && best_i <= i2) by {
                    if j2 == k && i2 < k {
                        assert(s[k as int] as int == s[k - 1] + 1);
                    }
                }
            }
        }
        k = k + 1;
    }
    proof {
        assert(longest_run_at(s, best_i as int, best_j as int));
        let (i, j) = choose|i: int, j: int| longest_run_at(s, i, j);
        lemma_longest_run_unique(s, i, j, best_i as int, best_j as int);
        lemma_run_contiguous(s, best_i as int, best_j as int);
    }
    let mut r: Vec<usize> = Vec::new();
    let mut t: usize = best_i;
    while t <= best_j
        invariant
            best_i <= t <= best_j + 1,
            s == array@,
            best_j < n == s.len(),
            r@ == s.subrange(best_i as int, t as int),
        decreases best_j + 1 - t,
    {
        r.push(array[t]);
        proof {
            assert(s.subrange(best_i as int, t + 1) =~= s.subrange(best_i as int, t as int).push(
                s[t as int],
            ));
        }
        t = t + 1;
    }
    r
}

/// Resolves a selected position set to one contiguous run: the set itself
/// when already contiguous, else its first longest run.
pub fn assign_contiguous(array: Vec<usize>) -> (r: Result<Vec<usize>, RegionError>)
    ensures
        r is Err <==> resolved(array@) is Err,
        r matches Err(e) ==> resolved(array@) == Err::<Seq<usize>, RegionError>(e),
        r matches Ok(v) ==> resolved(array@) == Ok::<Seq<usize>, RegionError>(v@),
        r matches Ok(v) ==> v@.len() > 0 && contiguous(v@),
{
    if array.len() == 0 {
        Err(RegionError::NoContiguousRegion)
    } else if is_contiguous(&array) {
        Ok(array)
    } else {
        let contiguous = find_longest_contiguous(&array);
        Ok(contiguous)
    }
}

/// The least and greatest positions of `array`, which must differ.
pub fn border(array: &Vec<usize>) -> (r: Result<(usize, usize), RegionError>)
    ensures
        array@.len() == 0 ==> r == Err::<(usize, usize), RegionError>(
            RegionError::NoContiguousRegion,
        ),
        array@.len() > 0 && all_equal(array@) ==> r == Err::<(usize, usize), RegionError>(
            RegionError::DegenerateThreshold,
        ),
        array@.len() > 0 && !all_equal(array@) ==> (r matches Ok((lo, hi)) && is_least(array@, lo)
            && is_greatest(array@, hi)),
{
    let n = array.len();
    if n == 0 {
        return Err(RegionError::NoContiguousRegion);
    }
    let mut lo: usize = array[0];
    let mut hi: usize = array[0];
    let ghost mut lo_at: int = 0;
    let ghost mut hi_at: int = 0;
    let mut k: usize = 1;
    while k < n
        invariant
            n == array@.len(),
            1 <= k <= n,
            0 <= lo_at < k && array@[lo_at] == lo,
            0 <= hi_at < k && array@[hi_at] == hi,
            forall|m: int| 0 <= m < k ==> lo <= #[trigger] array@[m] <= hi,
        decreases n - k,
    {
        if array[k] < lo {
            lo = array[k];
            proof {
                lo_at = k as int;
            }
        }
        if array[k] > hi {
            hi = array[k];
            proof {
                hi_at = k as int;
            }
        }
        k = k + 1;
    }
    assert(array@[lo_at] == lo && array@[hi_at] == hi);
    if lo == hi {
        proof {
            assert forall|i: int, j: int|
                0 <= i < array@.len() && 0 <= j < array@.len() implies array@[i] == array@[j] by {
                assert(lo <= array@[i] <= hi);
                assert(lo <= array@[j] <= hi);
            }
        }
        return Err(RegionError::DegenerateThreshold);
    }
    proof {
        if all_equal(array@) {
            assert(array@[lo_at] == array@[hi_at]);
        }
    }
    Ok((lo, hi))
}

/// In a contiguous run each element is the first plus its index.
proof fn lemma_contiguous_offset(s: Seq<usize>, k: int)
    requires
        contiguous(s),
        0 <= k < s.len(),
    ensures
        s[k] as int == s[0] + k,
    decreases k,
{
    if k > 0 {
        lemma_contiguous_offset(s, k - 1);
    }
}

/// A contiguous run starts at its least element and ends at its greatest,
/// which differ exactly when it holds more than one element.
proof fn lemma_contiguous_bounds(s: Seq<usize>)
    requires
        s.len() > 0,
        contiguous(s),
    ensures
        is_least(s, s[0]),
        is_greatest(s, s.last()),
        all_equal(s) <==> s.len() == 1,
{
    assert forall|k: int| 0 <= k < s.len() implies #[trigger] s[k] as int == s[0] + k by {
        lemma_contiguous_offset(s, k);
    }
    assert(s.contains(s[0]) && s.contains(s.last()) && s.last() == s[s.len() - 1]);
    if s.len() > 1 {
        assert(s[0] != s[1]);
    }
}

/// Resolves a selection mask to the interval `[min, max]` of its contiguous
/// region: the selected positions, made contiguous, then bounded.
pub fn resolve_region(mask: &Vec<bool>) -> (r: Result<(usize, usize), RegionError>)
    ensures
        r == region_of(mask@),
{
    let positions = selected_positions(mask);
    let run = match assign_contiguous(positions) {
        Ok(run) => run,
        Err(e) => {
            return Err(e);
        },
    };
    proof {
        lemma_contiguous_bounds(run@);
    }
    let r = border(&run);
    proof {
        if let Ok((lo, hi)) = r {
            let a = choose|m: int| 0 <= m < run@.len() && run@[m] == lo;
            let b = choose|m: int| 0 <= m < run@.len() && run@[m] == hi;
            assert(lo <= run@[0] && run@[0] <= run@[a]);
            assert(run@[b] <= run@.last() && run@.last() <= hi);
        }
    }
    r
}

/// A nonempty strictly increasing position set whose elements are
/// consecutive is reported contiguous and resolves to itself, unchanged.
pub proof fn lemma_contiguous_set_unchanged(s: Seq<usize>)
    requires
        increasing(s),
        s.len() > 0,
        forall|k: int| 0 < k < s.len() ==> #[trigger] s[k] as int == s[k - 1] + 1,
    ensures
        contiguous(s),
        resolved(s) == Ok::<Seq<usize>, RegionError>(s),
{
}

} // verus!
