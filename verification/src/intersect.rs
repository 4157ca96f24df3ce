use vstd::prelude::*;

verus! {

/// Whether `s` is sorted in non-decreasing order.
pub open spec fn sorted(s: Seq<i32>) -> bool {
    forall|x: int, y: int| 0 <= x <= y < s.len() ==> s[x] <= s[y]
}

/// Whether `s` is sorted in strictly increasing order, so each value occurs once.
pub open spec fn strictly_increasing(s: Seq<i32>) -> bool {
    forall|x: int, y: int| 0 <= x < y < s.len() ==> s[x] < s[y]
}

/// The intersection of two sorted arrays: the values present in both, each
/// reported once, in increasing order.
pub fn intersect_arrays(a1: &[i32], a2: &[i32]) -> (r: Vec<i32>)
    requires
        sorted(a1@),
        sorted(a2@),
    ensures
        strictly_increasing(r@),
        forall|v: i32| r@.contains(v) ==> a1@.contains(v) && a2@.contains(v),
        forall|v: i32| a1@.contains(v) && a2@.contains(v) ==> r@.contains(v),
{
    let mut i: usize = 0;
    let mut j: usize = 0;
    let mut result: Vec<i32> = Vec::new();

    while i < a1.len() && j < a2.len()
        invariant
            i <= a1@.len(),
            j <= a2@.len(),
            sorted(a1@),
            sorted(a2@),
            strictly_increasing(result@),
            result@.len() > 0 ==> exists|x: int| 0 <= x < i && a1@[x] == result@.last(),
            forall|k: int| #![trigger result@[k]] 0 <= k < result@.len() ==> a1@.contains(
                result@[k],
            ) && a2@.contains(result@[k]),
            forall|x: int, y: int|
                0 <= x < a1@.len() && 0 <= y < a2@.len() && a1@[x] == a2@[y]
                    && !result@.contains(a1@[x]) ==> x >= i && y >= j,
        decreases a1@.len() + a2@.len() - i - j,
    {
        if a1[i] < a2[j] {
            proof {
                assert forall|x: int, y: int|
                    0 <= x < a1@.len() && 0 <= y < a2@.len() && a1@[x] == a2@[y]
                        && !result@.contains(a1@[x]) implies x >= i + 1 && y >= j by {
                    if x == i {
                        assert(a2@[j as int] <= a2@[y]);
                    }
                }
                if result@.len() > 0 {
                    let x = choose|x: int| 0 <= x < i && a1@[x] == result@.last();
                    assert(0 <= x < i + 1 && a1@[x] == result@.last());
                }
            }
            i = i + 1;
        } else if a1[i] > a2[j] {
            proof {
                assert forall|x: int, y: int|
                    0 <= x < a1@.len() && 0 <= y < a2@.len() && a1@[x] == a2@[y]
                        && !result@.contains(a1@[x]) implies x >= i && y >= j + 1 by {
                    if y == j {
                        assert(a1@[i as int] <= a1@[x]);
                    }
                }
            }
            j = j + 1;
        } else {
            let v = a1[i];
            let ghost prev = result@;
            if result.len() == 0 {
                result.push(v);
            } else {
                let last = result[result.len() - 1];
                if last != v {
                    proof {
                        let x = choose|x: int| 0 <= x < i && a1@[x] == prev.last();
                        assert(a1@[x] <= a1@[i as int]);
                        assert forall|p: int, q: int|
                            0 <= p < q < prev.push(v).len() implies prev.push(v)[p] < prev.push(
                            v,
                        )[q] by {
                            if q == prev.len() {
                                if p < prev.len() - 1 {
                                    assert(prev[p] < prev[prev.len() - 1]);
                                }
                            }
                        }
                    }
                    result.push(v);
                }
            }
            proof {
                assert(result@.last() == a1@[i as int]);
                assert(0 <= i < i + 1 && a1@[i as int] == result@.last());
                assert forall|k: int| #![trigger result@[k]] 0 <= k < result@.len() implies a1@
                    .contains(result@[k]) && a2@.contains(result@[k]) by {
                    if k < prev.len() {
                        assert(prev[k] == result@[k]);
                    } else {
                        assert(result@[k] == a1@[i as int]);
                        assert(a1@.contains(result@[k])) by {
                            assert(a1@[i as int] == result@[k]);
                        }
                        assert(a2@.contains(result@[k])) by {
                            assert(a2@[j as int] == result@[k]);
                        }
                    }
                }
                assert(result@.contains(a1@[i as int])) by {
                    assert(result@[result@.len() - 1] == a1@[i as int]);
                }
                assert forall|w: i32| prev.contains(w) implies result@.contains(w) by {
                    let k = choose|k: int| 0 <= k < prev.len() && prev[k] == w;
                    assert(result@[k] == w);
                }
                assert forall|x: int, y: int|
                    0 <= x < a1@.len() && 0 <= y < a2@.len() && a1@[x] == a2@[y]
                        && !result@.contains(a1@[x]) implies x >= i + 1 && y >= j + 1 by {
                    assert(a1@[x] != a1@[i as int]);
                }
            }
            i = i + 1;
            j = j + 1;
        }
    }
    proof {
        assert forall|v: i32| a1@.contains(v) && a2@.contains(v) implies result@.contains(v) by {
            if !result@.contains(v) {
                let x = choose|x: int| 0 <= x < a1@.len() && a1@[x] == v;
                let y = choose|y: int| 0 <= y < a2@.len() && a2@[y] == v;
                assert(x >= i && y >= j);
            }
        }
        assert forall|v: i32| result@.contains(v) implies a1@.contains(v) && a2@.contains(v) by {
            let k = choose|k: int| 0 <= k < result@.len() && result@[k] == v;
            assert(a1@.contains(result@[k]) && a2@.contains(result@[k]));
        }
    }
    result
}

} // verus!
