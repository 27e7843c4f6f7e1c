use vstd::prelude::*;

use crate::geometry::{
    hit_dist_num, hit_nearer_than, nearer_hit, nearer_hit_of, GeomError, Hit, Point, Segment,
};
use crate::intersect::{intersect, intersection, lemma_hit_den_positive};

verus! {

/// The best point after one more candidate: a new intersection is adopted when
/// there is no best point yet, and otherwise replaces the best point unless the
/// best point is strictly nearer to the ray's first endpoint.
pub open spec fn next_best(ray: Segment, best: Option<Hit>, cand: Segment, tol_inv: int) -> Option<
    Hit,
> {
    match intersection(ray, cand, tol_inv) {
        None => best,
        Some(p) => match best {
            None => Some(p),
            Some(cur) => Some(nearer_hit_of(ray.p, cur, p)),
        },
    }
}

/// The best point after all of `cands`, taken in order.
pub open spec fn nearest_hit(ray: Segment, cands: Seq<Segment>, tol_inv: int) -> Option<Hit>
    decreases cands.len(),
{
    if cands.len() == 0 {
        None
    } else {
        next_best(ray, nearest_hit(ray, cands.drop_last(), tol_inv), cands.last(), tol_inv)
    }
}

/// Some segment of `cands` is degenerate.
pub open spec fn any_degenerate(cands: Seq<Segment>) -> bool {
    exists|i: int| 0 <= i < cands.len() && #[trigger] cands[i].is_degenerate()
}

/// Every segment of `cands` has bounded coordinates.
pub open spec fn all_bounded(cands: Seq<Segment>) -> bool {
    forall|i: int| 0 <= i < cands.len() ==> #[trigger] cands[i].is_bounded()
}

/// Folds one candidate into the running best point.
pub fn fold_step(ray: &Segment, best: Option<Hit>, cand: &Segment, tol_inv: u32) -> (r: Result<
    Option<Hit>,
    GeomError,
>)
    requires
        ray.is_bounded(),
        cand.is_bounded(),
        tol_inv > 0,
        best matches Some(b) ==> b.is_bounded(),
    ensures
        r is Err <==> (ray.is_degenerate() || cand.is_degenerate()),
        r is Err ==> r == Err::<Option<Hit>, GeomError>(GeomError::DegenerateSegment),
        r matches Ok(o) ==> o == next_best(*ray, best, *cand, tol_inv as int),
        r matches Ok(Some(h)) ==> h.is_bounded(),
{
    let hit = match intersect(ray, cand, tol_inv) {
        Ok(h) => h,
        Err(e) => return Err(e),
    };
    match hit {
        None => Ok(best),
        Some(p) => match best {
            None => Ok(Some(p)),
            Some(cur) => Ok(Some(nearer_hit(&ray.p, &cur, &p))),
        },
    }
}

/// The intersection point nearest to the ray's first endpoint over all
/// candidates, or `None` when no candidate meets the ray. Fails with
/// `DegenerateSegment` when the ray or any candidate is degenerate.
pub fn fold_nearest(ray: &Segment, cands: &Vec<Segment>, tol_inv: u32) -> (r: Result<
    Option<Hit>,
    GeomError,
>)
    requires
        ray.is_bounded(),
        all_bounded(cands@),
        tol_inv > 0,
    ensures
        r is Err <==> (ray.is_degenerate() || any_degenerate(cands@)),
        r is Err ==> r == Err::<Option<Hit>, GeomError>(GeomError::DegenerateSegment),
        r matches Ok(o) ==> o == nearest_hit(*ray, cands@, tol_inv as int),
{
    if ray.p == ray.q {
        return Err(GeomError::DegenerateSegment);
    }
    let mut best: Option<Hit> = None;
    let mut i: usize = 0;
    while i < cands.len()
        invariant
            !ray.is_degenerate(),
            ray.is_bounded(),
            all_bounded(cands@),
            tol_inv > 0,
            i <= cands.len(),
            forall|j: int| 0 <= j < i ==> !(#[trigger] cands@[j]).is_degenerate(),
            best == nearest_hit(*ray, cands@.take(i as int), tol_inv as int),
            best matches Some(b) ==> b.is_bounded(),
        decreases cands.len() - i,
    {
        assert(cands@.take(i + 1).drop_last() == cands@.take(i as int));
        match fold_step(ray, best, &cands[i], tol_inv) {
            Ok(b) => best = b,
            Err(e) => return Err(e),
        }
        i = i + 1;
    }
    assert(cands@.take(cands.len() as int) == cands@);
    Ok(best)
}

/// The folded result is the intersection of some candidate with the ray, and
/// `None` exactly when no candidate meets the ray.
pub proof fn lemma_nearest_hit_is_a_hit(ray: Segment, cands: Seq<Segment>, tol_inv: int)
    ensures
        nearest_hit(ray, cands, tol_inv) is None <==> (forall|i: int|
            0 <= i < cands.len() ==> (#[trigger] intersection(ray, cands[i], tol_inv)) is None),
        nearest_hit(ray, cands, tol_inv) matches Some(p) ==> exists|i: int|
            0 <= i < cands.len() && #[trigger] intersection(ray, cands[i], tol_inv) == Some(p),
    decreases cands.len(),
{
    if cands.len() > 0 {
        let init = cands.drop_last();
        lemma_nearest_hit_is_a_hit(ray, init, tol_inv);
        let last = cands.len() - 1;
        assert forall|i: int| 0 <= i < init.len() implies #[trigger] cands[i] == init[i] by {}
        if nearest_hit(ray, cands, tol_inv) is None {
            assert forall|i: int| 0 <= i < cands.len() implies (#[trigger] intersection(
                ray,
                cands[i],
                tol_inv,
            )) is None by {
                if i < last {
                    assert(intersection(ray, init[i], tol_inv) is None);
                }
            }
        }
        if let Some(p) = nearest_hit(ray, cands, tol_inv) {
            if intersection(ray, cands[last], tol_inv) is None || (nearest_hit(ray, init, tol_inv)
                is Some && p == nearest_hit(ray, init, tol_inv)->Some_0) {
                if nearest_hit(ray, init, tol_inv) is Some {
                    let i = choose|i: int|
                        0 <= i < init.len() && #[trigger] intersection(ray, init[i], tol_inv)
                            == Some(p);
                    assert(intersection(ray, cands[i], tol_inv) == Some(p));
                }
            } else {
                assert(intersection(ray, cands[last], tol_inv) == Some(p));
            }
        }
    }
}

/// `p` is no farther from `anchor` than `q`.
pub open spec fn no_farther(anchor: Point, p: Hit, q: Hit) -> bool {
    !hit_nearer_than(anchor, q, p)
}

proof fn lemma_no_farther_transitive(anchor: Point, p: Hit, q: Hit, r: Hit)
    requires
        p.den > 0,
        q.den > 0,
        r.den > 0,
        no_farther(anchor, p, q),
        no_farther(anchor, q, r),
    ensures
        no_farther(anchor, p, r),
{
    let (sp, sq, sr) = (hit_dist_num(anchor, p), hit_dist_num(anchor, q), hit_dist_num(anchor, r));
    let (dp, dq, dr) = (p.den * p.den, q.den * q.den, r.den * r.den);
    assert(dp > 0 && dq > 0 && dr > 0) by (nonlinear_arith)
        requires
            p.den > 0,
            q.den > 0,
            r.den > 0,
            dp == p.den * p.den,
            dq == q.den * q.den,
            dr == r.den * r.den,
    ;
    assert(sp * dr <= sr * dp) by (nonlinear_arith)
        requires
            sp * dq <= sq * dp,
            sq * dr <= sr * dq,
            dp > 0,
            dq > 0,
            dr > 0,
    ;
}

/// No candidate meets the ray at a point strictly nearer to the ray's first
/// endpoint than the folded result.
pub proof fn lemma_nearest_hit_is_nearest(ray: Segment, cands: Seq<Segment>, tol_inv: int)
    requires
        ray.is_bounded(),
        !ray.is_degenerate(),
        all_bounded(cands),
        !any_degenerate(cands),
    ensures
        nearest_hit(ray, cands, tol_inv) matches Some(p) ==> forall|i: int|
            0 <= i < cands.len() && (#[trigger] intersection(ray, cands[i], tol_inv)) is Some
                ==> no_farther(ray.p, p, intersection(ray, cands[i], tol_inv)->Some_0),
    decreases cands.len(),
{
    if cands.len() > 0 {
        let init = cands.drop_last();
        let last = cands.len() - 1;
        assert forall|i: int| 0 <= i < init.len() implies #[trigger] cands[i] == init[i] by {}
        assert forall|i: int| 0 <= i < init.len() implies #[trigger] init[i].is_bounded() by {
            assert(cands[i].is_bounded());
        }
        assert(!any_degenerate(init)) by {
            if any_degenerate(init) {
                let i = choose|i: int| 0 <= i < init.len() && #[trigger] init[i].is_degenerate();
                assert(cands[i].is_degenerate());
            }
        }
        assert(!cands[last].is_degenerate());
        lemma_nearest_hit_is_nearest(ray, init, tol_inv);
        lemma_nearest_hit_is_a_hit(ray, init, tol_inv);
        assert forall|i: int| 0 <= i < cands.len() implies (#[trigger] intersection(ray, cands[i], tol_inv)
            matches Some(h) ==> h.den > 0) by {
            assert(cands[i].is_bounded());
            assert(!cands[i].is_degenerate());
            lemma_hit_den_positive(ray, cands[i], tol_inv);
        }
        if let Some(p) = nearest_hit(ray, cands, tol_inv) {
            assert forall|i: int|
                0 <= i < cands.len() && (#[trigger] intersection(ray, cands[i], tol_inv)) is Some
                    implies no_farther(ray.p, p, intersection(ray, cands[i], tol_inv)->Some_0) by {
                let h = intersection(ray, cands[i], tol_inv)->Some_0;
                let prev = nearest_hit(ray, init, tol_inv);
                let last_hit = intersection(ray, cands[last], tol_inv);
                if i < last {
                    assert(intersection(ray, init[i], tol_inv) is Some);
                    let cur = prev->Some_0;
                    let j = choose|j: int|
                        0 <= j < init.len() && #[trigger] intersection(ray, init[j], tol_inv)
                            == Some(cur);
                    assert(intersection(ray, cands[j], tol_inv) == Some(cur));
                    if last_hit is Some && p != cur {
                        let q = last_hit->Some_0;
                        assert(p == q);
                        lemma_no_farther_transitive(ray.p, q, cur, h);
                    }
                } else {
                    if prev is Some && p != h {
                        let cur = prev->Some_0;
                        assert(hit_nearer_than(ray.p, cur, h));
                    }
                }
            }
        }
    }
}

} // verus!
