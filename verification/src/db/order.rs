use vstd::prelude::*;

verus! {

/// Lexicographic order on (position, id) keys.
pub open spec fn key_lt(a: (i32, i64), b: (i32, i64)) -> bool {
    a.0 < b.0 || (a.0 == b.0 && a.1 < b.1)
}

pub open spec fn strictly_sorted(s: Seq<(i32, i64)>) -> bool {
    forall|i: int, j: int| 0 <= i < j < s.len() ==> key_lt(#[trigger] s[i], #[trigger] s[j])
}

/// `s` lists exactly the keys of `set`, in ascending order.
pub open spec fn lists_sorted(s: Seq<(i32, i64)>, set: Set<(i32, i64)>) -> bool {
    strictly_sorted(s) && forall|x: (i32, i64)| s.contains(x) <==> set.contains(x)
}

/// The keys of `set` in ascending (position, id) order.
pub open spec fn sorted_keys(set: Set<(i32, i64)>) -> Seq<(i32, i64)> {
    choose|s: Seq<(i32, i64)>| lists_sorted(s, set)
}

/// Two ascending listings of the same keys are the same sequence.
pub proof fn lemma_sorted_unique(a: Seq<(i32, i64)>, b: Seq<(i32, i64)>)
    requires
        strictly_sorted(a),
        strictly_sorted(b),
        forall|x: (i32, i64)| a.contains(x) <==> b.contains(x),
    ensures
        a == b,
    decreases a.len(),
{
    if a.len() == 0 {
        if b.len() > 0 {
            assert(b.contains(b[0]));
        }
        assert(a =~= b);
    } else {
        assert(a.contains(a[0]));
        assert(b.len() > 0);
        assert(b.contains(b[0]));
        let k = choose|k: int| 0 <= k < b.len() && b[k] == a[0];
        let m = choose|m: int| 0 <= m < a.len() && a[m] == b[0];
        if k > 0 {
            assert(key_lt(b[0], b[k]));
            if m > 0 {
                assert(key_lt(a[0], a[m]));
            }
        }
        assert(a[0] == b[0]);
        let ta = a.drop_first();
        let tb = b.drop_first();
        assert forall|x: (i32, i64)| ta.contains(x) <==> tb.contains(x) by {
            if ta.contains(x) {
                let i = choose|i: int| 0 <= i < ta.len() && ta[i] == x;
                assert(a[i + 1] == x);
                assert(key_lt(a[0], a[i + 1]));
                assert(a.contains(x));
                let j = choose|j: int| 0 <= j < b.len() && b[j] == x;
                assert(j != 0);
                assert(tb[j - 1] == x);
            }
            if tb.contains(x) {
                let i = choose|i: int| 0 <= i < tb.len() && tb[i] == x;
                assert(b[i + 1] == x);
                assert(key_lt(b[0], b[i + 1]));
                assert(b.contains(x));
                let j = choose|j: int| 0 <= j < a.len() && a[j] == x;
                assert(j != 0);
                assert(ta[j - 1] == x);
            }
        }
        lemma_sorted_unique(ta, tb);
        assert(a =~= seq![a[0]] + ta);
        assert(b =~= seq![b[0]] + tb);
    }
}

/// An ascending listing of `set` is `sorted_keys(set)`.
pub proof fn lemma_is_sorted_keys(s: Seq<(i32, i64)>, set: Set<(i32, i64)>)
    requires
        lists_sorted(s, set),
    ensures
        sorted_keys(set) == s,
{
    let t = sorted_keys(set);
    assert(lists_sorted(t, set));
    lemma_sorted_unique(s, t);
}

pub fn key_lt_exec(a: (i32, i64), b: (i32, i64)) -> (r: bool)
    ensures
        r == key_lt(a, b),
{
    a.0 < b.0 || (a.0 == b.0 && a.1 < b.1)
}

/// The distinct keys of `v` in ascending (position, id) order.
pub fn sort_keys(v: &Vec<(i32, i64)>) -> (r: Vec<(i32, i64)>)
    ensures
        strictly_sorted(r@),
        forall|x: (i32, i64)| r@.contains(x) <==> v@.contains(x),
{
    let mut out: Vec<(i32, i64)> = Vec::new();
    let mut i: usize = 0;
    while i < v.len()
        invariant
            0 <= i <= v@.len(),
            strictly_sorted(out@),
            forall|x: (i32, i64)| out@.contains(x) <==> v@.take(i as int).contains(x),
        decreases v@.len() - i,
    {
        let x = v[i];
        let mut pos: usize = 0;
        while pos < out.len() && key_lt_exec(out[pos], x)
            invariant
                0 <= pos <= out@.len(),
                forall|t: int| 0 <= t < pos ==> key_lt(#[trigger] out@[t], x),
            decreases out@.len() - pos,
        {
            pos = pos + 1;
        }
        let ghost prev = out@;
        if pos < out.len() && out[pos].0 == x.0 && out[pos].1 == x.1 {
            // already present
        } else {
            out.insert(pos, x);
            proof {
                assert forall|a: int, b: int| 0 <= a < b < out@.len() implies key_lt(#[trigger] out@[a], #[trigger] out@[b]) by {
                    if b < pos {
                        assert(out@[a] == prev[a] && out@[b] == prev[b]);
                    } else if b == pos {
                        assert(out@[a] == prev[a]);
                    } else if a < pos {
                        assert(out@[a] == prev[a] && out@[b] == prev[b - 1]);
                        assert(key_lt(prev[a], x));
                        assert(!key_lt(prev[pos as int], x));
                        if pos < b - 1 {
                            assert(key_lt(prev[pos as int], prev[b - 1]));
                        }
                    } else if a == pos {
                        assert(out@[b] == prev[b - 1]);
                        assert(!key_lt(prev[pos as int], x));
                        assert(prev[pos as int] != x);
                        if pos < b - 1 {
                            assert(key_lt(prev[pos as int], prev[b - 1]));
                        }
                    } else {
                        assert(out@[a] == prev[a - 1] && out@[b] == prev[b - 1]);
                    }
                }
            }
        }
        proof {
            assert(v@.take(i + 1) =~= v@.take(i as int).push(x));
            assert forall|y: (i32, i64)| out@.contains(y) <==> v@.take(i + 1).contains(y) by {
                if out@.contains(y) {
                    let t = choose|t: int| 0 <= t < out@.len() && out@[t] == y;
                    if y != x {
                        if out@.len() > prev.len() {
                            if t < pos {
                                assert(prev[t] == y);
                            } else {
                                assert(prev[t - 1] == y);
                            }
                        }
                        assert(prev.contains(y));
                    }
                    assert(v@.take(i + 1).contains(y) || y == x);
                    if y == x {
                        assert(v@.take(i + 1)[i as int] == x);
                    }
                }
                let vt = v@.take(i + 1);
                if vt.contains(y) {
                    let t = choose|t: int| 0 <= t < vt.len() && vt[t] == y;
                    if t < i {
                        assert(v@.take(i as int)[t] == y);
                        assert(prev.contains(y));
                        let u = choose|u: int| 0 <= u < prev.len() && prev[u] == y;
                        if out@.len() > prev.len() {
                            if u < pos {
                                assert(out@[u] == y);
                            } else {
                                assert(out@[u + 1] == y);
                            }
                        } else {
                            assert(out@[u] == y);
                        }
                    } else {
                        assert(y == x);
                        if out@.len() > prev.len() {
                            assert(out@[pos as int] == x);
                        } else {
                            assert(out@[pos as int] == x);
                        }
                    }
                }
            }
        }
        i = i + 1;
    }
    proof {
        assert(v@.take(v@.len() as int) =~= v@);
    }
    out
}

} // verus!
