//! Splitting a sequence into maximal runs of linked neighbours, the grouping
//! step shared by formula clustering, line grouping and block grouping.
use vstd::prelude::*;

verus! {

/// The maximal runs of `s`: two neighbours `a, b` (in this order) stand in the
/// same run exactly when `link(a, b)` holds.
pub open spec fn runs<T>(s: Seq<T>, link: spec_fn(T, T) -> bool) -> Seq<Seq<T>>
    decreases s.len(),
{
    if s.len() == 0 {
        Seq::empty()
    } else if s.len() == 1 {
        seq![seq![s[0]]]
    } else {
        let r = runs(s.drop_last(), link);
        if link(s[s.len() - 2], s.last()) {
            r.update(r.len() - 1, r.last().push(s.last()))
        } else {
            r.push(seq![s.last()])
        }
    }
}

/// The runs of `rs` that hold at least `min` elements, in order.
pub open spec fn runs_at_least<T>(rs: Seq<Seq<T>>, min: nat) -> Seq<Seq<T>>
    decreases rs.len(),
{
    if rs.len() == 0 {
        Seq::empty()
    } else if rs.last().len() >= min {
        runs_at_least(rs.drop_last(), min).push(rs.last())
    } else {
        runs_at_least(rs.drop_last(), min)
    }
}

/// Concatenation of all runs.
pub open spec fn flatten_runs<T>(rs: Seq<Seq<T>>) -> Seq<T>
    decreases rs.len(),
{
    if rs.len() == 0 {
        Seq::empty()
    } else {
        flatten_runs(rs.drop_last()) + rs.last()
    }
}

/// Every run is non-empty, the last run ends with the last element, there are
/// no more runs than elements, and the runs put back together give `s`.
pub proof fn lemma_runs_shape<T>(s: Seq<T>, link: spec_fn(T, T) -> bool)
    ensures
        s.len() == 0 <==> runs(s, link).len() == 0,
        runs(s, link).len() <= s.len(),
        forall|k: int| 0 <= k < runs(s, link).len() ==> #[trigger] runs(s, link)[k].len() > 0,
        s.len() > 0 ==> runs(s, link).last().last() == s.last(),
        flatten_runs(runs(s, link)) == s,
    decreases s.len(),
{
    if s.len() == 1 {
        let r = runs(s, link);
        assert(r.drop_last() =~= Seq::<Seq<T>>::empty());
        assert(flatten_runs(r.drop_last()) =~= Seq::<T>::empty());
        assert(flatten_runs(r) =~= s);
    } else if s.len() > 1 {
        let p = s.drop_last();
        lemma_runs_shape(p, link);
        let r = runs(p, link);
        let q = runs(s, link);
        if link(s[s.len() - 2], s.last()) {
            assert(q.drop_last() =~= r.drop_last());
            assert(flatten_runs(r) == flatten_runs(r.drop_last()) + r.last());
            assert(flatten_runs(q) =~= flatten_runs(r) + seq![s.last()]);
        } else {
            assert(q.drop_last() =~= r);
            assert(flatten_runs(q) =~= flatten_runs(r) + seq![s.last()]);
        }
        assert(s =~= p + seq![s.last()]);
    }
}

/// One more element either extends the last run or starts a new one.
pub proof fn lemma_runs_step<T>(s: Seq<T>, x: T, link: spec_fn(T, T) -> bool)
    requires
        s.len() > 0,
    ensures
        link(s.last(), x) ==> runs(s.push(x), link) == runs(s, link).update(
            runs(s, link).len() - 1,
            runs(s, link).last().push(x),
        ),
        !link(s.last(), x) ==> runs(s.push(x), link) == runs(s, link).push(seq![x]),
{
    let t = s.push(x);
    assert(t.drop_last() =~= s);
    assert(t[t.len() - 2] == s.last());
}

/// Filtering runs by length distributes over appending one run.
pub proof fn lemma_runs_at_least_push<T>(rs: Seq<Seq<T>>, r: Seq<T>, min: nat)
    ensures
        runs_at_least(rs.push(r), min) == if r.len() >= min {
            runs_at_least(rs, min).push(r)
        } else {
            runs_at_least(rs, min)
        },
{
    assert(rs.push(r).drop_last() =~= rs);
}

/// What holds of every element of a sequence holds of every element of each
/// of its runs.
pub proof fn lemma_runs_keep<T>(s: Seq<T>, link: spec_fn(T, T) -> bool, p: spec_fn(T) -> bool)
    requires
        forall|k: int| 0 <= k < s.len() ==> p(#[trigger] s[k]),
    ensures
        forall|k: int, j: int|
            0 <= k < runs(s, link).len() && 0 <= j < runs(s, link)[k].len() ==> p(#[trigger] runs(s, link)[k][j]),
    decreases s.len(),
{
    if s.len() > 1 {
        let q = s.drop_last();
        assert forall|k: int| 0 <= k < q.len() implies p(#[trigger] q[k]) by {
            assert(q[k] == s[k]);
        }
        lemma_runs_keep(q, link, p);
        lemma_runs_shape(q, link);
        let r = runs(q, link);
        let rs = runs(s, link);
        assert(p(s[s.len() - 1]));
        assert forall|k: int, j: int| 0 <= k < rs.len() && 0 <= j < rs[k].len() implies p(#[trigger] rs[k][j]) by {
            if k < r.len() - 1 {
                assert(rs[k] == r[k]);
            } else if k == r.len() - 1 {
                if j < r[k].len() {
                    assert(rs[k][j] == r[k][j]);
                }
            }
        }
    } else if s.len() == 1 {
        assert(p(s[0]));
    }
}

/// Runs are maximal: within a run each element is linked to the next, and
/// the last element of a run is never linked to the first of the next run.
pub proof fn lemma_runs_maximal<T>(s: Seq<T>, link: spec_fn(T, T) -> bool)
    ensures
        forall|k: int, j: int|
            0 <= k < runs(s, link).len() && 0 <= j < runs(s, link)[k].len() - 1 ==> link(
                #[trigger] runs(s, link)[k][j],
                runs(s, link)[k][j + 1],
            ),
        forall|k: int|
            0 <= k < runs(s, link).len() - 1 ==> !link(
                (#[trigger] runs(s, link)[k]).last(),
                runs(s, link)[k + 1][0],
            ),
    decreases s.len(),
{
    if s.len() > 1 {
        let q = s.drop_last();
        lemma_runs_maximal(q, link);
        lemma_runs_shape(q, link);
        let r = runs(q, link);
        let rs = runs(s, link);
        let n = s.len();
        assert(r.last().last() == s[n - 2]);
        assert forall|k: int, j: int| 0 <= k < rs.len() && 0 <= j < rs[k].len() - 1 implies link(
            #[trigger] rs[k][j],
            rs[k][j + 1],
        ) by {
            if k < r.len() - 1 {
                assert(rs[k] == r[k]);
            } else if k == r.len() - 1 {
                if j < r[k].len() - 1 {
                    assert(rs[k][j] == r[k][j] && rs[k][j + 1] == r[k][j + 1]);
                } else {
                    assert(link(s[n - 2], s.last()));
                    assert(rs[k][j] == r[k][r[k].len() - 1]);
                    assert(rs[k][j + 1] == s.last());
                }
            }
        }
        assert forall|k: int| 0 <= k < rs.len() - 1 implies !link(
            (#[trigger] rs[k]).last(),
            rs[k + 1][0],
        ) by {
            if k < r.len() - 1 {
                assert(rs[k] == r[k]);
                assert(r[k + 1].len() > 0);
                assert(rs[k + 1][0] == r[k + 1][0]);
            } else {
                assert(!link(s[n - 2], s.last()));
                assert(rs[k] == r[k]);
                assert(rs[k + 1] == seq![s.last()]);
            }
        }
    }
}

/// When linked neighbours always agree on `key`, every element of a run
/// agrees on it with the run's first element.
pub proof fn lemma_runs_uniform<T, K>(s: Seq<T>, link: spec_fn(T, T) -> bool, key: spec_fn(T) -> K)
    requires
        forall|a: T, b: T| #[trigger] link(a, b) ==> key(a) == key(b),
    ensures
        forall|k: int, j: int|
            0 <= k < runs(s, link).len() && 0 <= j < runs(s, link)[k].len() ==> key(#[trigger] runs(s, link)[k][j])
                == key(runs(s, link)[k][0]),
    decreases s.len(),
{
    if s.len() > 1 {
        let q = s.drop_last();
        lemma_runs_uniform(q, link, key);
        lemma_runs_shape(q, link);
        let r = runs(q, link);
        let rs = runs(s, link);
        let n = s.len();
        assert(r.last().last() == s[n - 2]);
        assert forall|k: int, j: int| 0 <= k < rs.len() && 0 <= j < rs[k].len() implies key(#[trigger] rs[k][j])
            == key(rs[k][0]) by {
            if k < r.len() - 1 {
                assert(rs[k] == r[k]);
            } else if k == r.len() - 1 {
                if j < r[k].len() {
                    assert(rs[k][j] == r[k][j]);
                    assert(rs[k][0] == r[k][0]);
                } else {
                    assert(link(s[n - 2], s.last()));
                    assert(rs[k][j] == s.last());
                    assert(rs[k][0] == r[k][0]);
                    assert(key(r[k][r[k].len() - 1]) == key(r[k][0]));
                }
            }
        }
    }
}

/// Runs commute with mapping the elements, when the links agree.
pub proof fn lemma_runs_map<A, B>(
    s: Seq<A>,
    f: spec_fn(A) -> B,
    la: spec_fn(A, A) -> bool,
    lb: spec_fn(B, B) -> bool,
)
    requires
        forall|a: A, b: A| #[trigger] la(a, b) == lb(f(a), f(b)),
    ensures
        runs(s.map_values(f), lb) == runs(s, la).map_values(|r: Seq<A>| r.map_values(f)),
    decreases s.len(),
{
    let g = |r: Seq<A>| r.map_values(f);
    let t = s.map_values(f);
    if s.len() == 0 {
        assert(runs(t, lb) =~= runs(s, la).map_values(g));
    } else if s.len() == 1 {
        assert(seq![s[0]].map_values(f) =~= seq![t[0]]);
        assert(runs(t, lb) =~= runs(s, la).map_values(g));
    } else {
        lemma_runs_map(s.drop_last(), f, la, lb);
        lemma_runs_shape(s.drop_last(), la);
        assert(t.drop_last() =~= s.drop_last().map_values(f));
        assert(t[t.len() - 2] == f(s[s.len() - 2]));
        assert(t.last() == f(s.last()));
        assert(la(s[s.len() - 2], s.last()) == lb(f(s[s.len() - 2]), f(s.last())));
        let r = runs(s.drop_last(), la);
        if la(s[s.len() - 2], s.last()) {
            assert(r.last().push(s.last()).map_values(f) =~= r.last().map_values(f).push(f(s.last())));
            assert(runs(t, lb) =~= runs(s, la).map_values(g));
        } else {
            assert(seq![s.last()].map_values(f) =~= seq![f(s.last())]);
            assert(runs(t, lb) =~= runs(s, la).map_values(g));
        }
    }
}

/// Filtering runs by length commutes with a length-preserving map.
pub proof fn lemma_runs_at_least_map<A, B>(rs: Seq<Seq<A>>, g: spec_fn(Seq<A>) -> Seq<B>, min: nat)
    requires
        forall|r: Seq<A>| (#[trigger] g(r)).len() == r.len(),
    ensures
        runs_at_least(rs.map_values(g), min) == runs_at_least(rs, min).map_values(g),
    decreases rs.len(),
{
    if rs.len() == 0 {
        assert(runs_at_least(rs.map_values(g), min) =~= runs_at_least(rs, min).map_values(g));
    } else {
        lemma_runs_at_least_map(rs.drop_last(), g, min);
        assert(rs.map_values(g).drop_last() =~= rs.drop_last().map_values(g));
        assert(rs.map_values(g).last() == g(rs.last()));
        assert(runs_at_least(rs.map_values(g), min) =~= runs_at_least(rs, min).map_values(g));
    }
}

} // verus!
