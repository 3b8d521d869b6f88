//! Faces of the planar wall graph: the directed edges split into closed
//! walks by always turning to the edge that a successor function names.
use vstd::prelude::*;

verus! {

/// The edges of all faces, face after face.
pub open spec fn concat_faces(faces: Seq<Vec<usize>>) -> Seq<usize>
    decreases faces.len(),
{
    if faces.len() == 0 {
        Seq::empty()
    } else {
        concat_faces(faces.drop_last()) + faces.last()@
    }
}

/// Each edge of `face` is followed by an edge that `next` may name for it.
pub open spec fn is_walk<F: Fn(usize) -> usize>(face: Seq<usize>, next: F) -> bool {
    forall|j: int| 0 <= j < face.len() - 1 ==> #[trigger] next.ensures((face[j],), face[j + 1])
}

/// Face `f` starts at the lowest edge that no earlier face uses.
pub open spec fn starts_lowest(faces: Seq<Vec<usize>>, f: int) -> bool {
    let prior = concat_faces(faces.subrange(0, f));
    &&& !prior.contains(faces[f]@[0])
    &&& forall|x: usize| x < faces[f]@[0] ==> #[trigger] prior.contains(x)
}

/// Face `f` ends where `next` named, for its last edge, an edge out of
/// range or one that this face or an earlier one already uses.
pub open spec fn stops_at_used<F: Fn(usize) -> usize>(
    faces: Seq<Vec<usize>>,
    f: int,
    n: usize,
    next: F,
) -> bool {
    exists|o: usize|
        #[trigger] next.ensures((faces[f]@.last(),), o) && (o >= n || concat_faces(
            faces.subrange(0, f + 1),
        ).contains(o))
}

/// The number of edges not yet used.
spec fn unvisited(v: Seq<bool>) -> nat
    decreases v.len(),
{
    if v.len() == 0 {
        0
    } else {
        unvisited(v.drop_last()) + if v.last() {
            0nat
        } else {
            1nat
        }
    }
}

proof fn lemma_unvisited_mark(v: Seq<bool>, i: int)
    requires
        0 <= i < v.len(),
        !v[i],
    ensures
        unvisited(v.update(i, true)) + 1 == unvisited(v),
    decreases v.len(),
{
    let u = v.update(i, true);
    if i == v.len() - 1 {
        assert(u.drop_last() =~= v.drop_last());
    } else {
        assert(u.drop_last() =~= v.drop_last().update(i, true));
        lemma_unvisited_mark(v.drop_last(), i);
    }
}

proof fn lemma_contains_push(s: Seq<usize>, y: usize)
    ensures
        forall|x: usize| #[trigger] s.push(y).contains(x) <==> (s.contains(x) || x == y),
{
    assert forall|x: usize| #[trigger] s.push(y).contains(x) <==> (s.contains(x) || x == y) by {
        if s.push(y).contains(x) {
            let k = choose|k: int| 0 <= k < s.push(y).len() && s.push(y)[k] == x;
            if k < s.len() {
                assert(s[k] == x);
            }
        }
        if s.contains(x) {
            let k = choose|k: int| 0 <= k < s.len() && s[k] == x;
            assert(s.push(y)[k] == x);
        }
        if x == y {
            assert(s.push(y)[s.len() as int] == x);
        }
    }
}

proof fn lemma_push_unique(s: Seq<usize>, x: usize)
    requires
        s.no_duplicates(),
        !s.contains(x),
    ensures
        s.push(x).no_duplicates(),
{
    assert forall|i: int, j: int|
        0 <= i < s.push(x).len() && 0 <= j < s.push(x).len() && i != j implies s.push(x)[i] != s.push(x)[j] by {
        if i < s.len() && j < s.len() {
            assert(s[i] == s.push(x)[i] && s[j] == s.push(x)[j]);
        } else if i < s.len() {
            assert(s.push(x)[i] == s[i]);
            assert(s.contains(s[i]));
        } else if j < s.len() {
            assert(s.push(x)[j] == s[j]);
            assert(s.contains(s[j]));
        }
    }
}

/// Splits the edges `0..n` into faces. A face starts at the lowest edge not
/// yet used and follows `next` until `next` names an edge already used (its
/// own start among them) or an edge out of range. Every edge lies in exactly
/// one face, and each face is a walk along `next`.
pub fn trace_faces<F: Fn(usize) -> usize>(n: usize, next: &F) -> (r: Vec<Vec<usize>>)
    requires
        forall|i: usize| i < n ==> #[trigger] next.requires((i,)),
    ensures
        concat_faces(r@).no_duplicates(),
        forall|e: usize| e < n ==> #[trigger] concat_faces(r@).contains(e),
        forall|k: int| 0 <= k < concat_faces(r@).len() ==> #[trigger] concat_faces(r@)[k] < n,
        forall|f: int| 0 <= f < r@.len() ==> #[trigger] r@[f]@.len() > 0 && is_walk(r@[f]@, *next),
        forall|f: int|
            #![trigger r@[f]]
            0 <= f < r@.len() ==> starts_lowest(r@, f) && stops_at_used(r@, f, n, *next),
{
    let mut visited: Vec<bool> = Vec::new();
    let mut i: usize = 0;
    while i < n
        invariant
            0 <= i <= n,
            visited@.len() == i,
            forall|k: int| 0 <= k < i ==> !visited@[k],
        decreases n - i,
    {
        visited.push(false);
        i = i + 1;
    }
    let mut faces: Vec<Vec<usize>> = Vec::new();
    let mut e: usize = 0;
    while e < n
        invariant
            forall|i: usize| i < n ==> #[trigger] next.requires((i,)),
            0 <= e <= n,
            visited@.len() == n,
            concat_faces(faces@).no_duplicates(),
            forall|x: usize| x < n ==> (visited@[x as int] <==> #[trigger] concat_faces(faces@).contains(x)),
            forall|k: int| 0 <= k < concat_faces(faces@).len() ==> #[trigger] concat_faces(faces@)[k] < n,
            forall|x: usize| x < e ==> #[trigger] visited@[x as int],
            forall|f: int| 0 <= f < faces@.len() ==> #[trigger] faces@[f]@.len() > 0 && is_walk(faces@[f]@, *next),
            forall|f: int|
                #![trigger faces@[f]]
                0 <= f < faces@.len() ==> starts_lowest(faces@, f) && stops_at_used(faces@, f, n, *next),
        decreases n - e,
    {
        if !visited[e] {
            let ghost done = concat_faces(faces@);
            proof {
                assert forall|x: usize| x < e implies #[trigger] done.contains(x) by {
                    assert(visited@[x as int]);
                }
            }
            let mut face: Vec<usize> = Vec::new();
            face.push(e);
            visited.set(e, true);
            proof {
                lemma_push_unique(done, e);
                lemma_contains_push(done, e);
                assert(done + face@ =~= done.push(e));
                assert forall|x: usize| x < n implies (visited@[x as int] <==> #[trigger] (done
                    + face@).contains(x)) by {
                    assert((done + face@).contains(x) == done.push(e).contains(x));
                }
                assert forall|k: int| 0 <= k < (done + face@).len() implies #[trigger] (done + face@)[k] < n by {
                    if k < done.len() {
                        assert((done + face@)[k] == done[k]);
                    }
                }
            }
            let mut cur: usize = e;
            loop
                invariant
                    forall|i: usize| i < n ==> #[trigger] next.requires((i,)),
                    visited@.len() == n,
                    done == concat_faces(faces@),
                    (done + face@).no_duplicates(),
                    forall|x: usize| x < n ==> (visited@[x as int] <==> #[trigger] (done + face@).contains(x)),
                    forall|k: int| 0 <= k < (done + face@).len() ==> #[trigger] (done + face@)[k] < n,
                    face@.len() > 0,
                    cur == face@.last(),
                    face@[0] == e,
                    cur < n,
                    is_walk(face@, *next),
                ensures
                    forall|i: usize| i < n ==> #[trigger] next.requires((i,)),
                    visited@.len() == n,
                    done == concat_faces(faces@),
                    (done + face@).no_duplicates(),
                    forall|x: usize| x < n ==> (visited@[x as int] <==> #[trigger] (done + face@).contains(x)),
                    forall|k: int| 0 <= k < (done + face@).len() ==> #[trigger] (done + face@)[k] < n,
                    face@.len() > 0,
                    cur == face@.last(),
                    face@[0] == e,
                    cur < n,
                    is_walk(face@, *next),
                    exists|o: usize|
                        #[trigger] next.ensures((face@.last(),), o) && (o >= n || (done + face@).contains(o)),
                decreases unvisited(visited@),
            {
                let nx = next(cur);
                if nx >= n || visited[nx] {
                    proof {
                        if nx < n {
                            assert((done + face@).contains(nx));
                        }
                    }
                    break;
                }
                let ghost prev = done + face@;
                proof {
                    assert(!prev.contains(nx));
                    lemma_push_unique(prev, nx);
                    lemma_contains_push(prev, nx);
                    lemma_unvisited_mark(visited@, nx as int);
                }
                visited.set(nx, true);
                face.push(nx);
                proof {
                    assert(done + face@ =~= prev.push(nx));
                    assert forall|x: usize| x < n implies (visited@[x as int] <==> #[trigger] (done
                        + face@).contains(x)) by {
                        assert((done + face@).contains(x) == prev.push(nx).contains(x));
                    }
                    assert forall|k: int| 0 <= k < (done + face@).len() implies #[trigger] (done + face@)[k] < n by {
                        if k < prev.len() {
                            assert((done + face@)[k] == prev[k]);
                        }
                    }
                    assert forall|j: int| 0 <= j < face@.len() - 1 implies #[trigger] next.ensures(
                        (face@[j],),
                        face@[j + 1],
                    ) by {
                        if j < face@.len() - 2 {
                            assert(face@.drop_last()[j] == face@[j]);
                            assert(face@.drop_last()[j + 1] == face@[j + 1]);
                        }
                    }
                }
                cur = nx;
            }
            proof {
                assert forall|x: usize| x <= e implies #[trigger] visited@[x as int] by {
                    if x < e {
                        assert(done.contains(x));
                        let k = choose|k: int| 0 <= k < done.len() && done[k] == x;
                        assert((done + face@)[k] == x);
                        assert((done + face@).contains(x));
                    } else {
                        assert((done + face@)[done.len() as int] == e);
                        assert((done + face@).contains(x));
                    }
                }
            }
            let ghost old_faces = faces@;
            let ghost stop = choose|o: usize|
                #[trigger] next.ensures((face@.last(),), o) && (o >= n || (done + face@).contains(o));
            faces.push(face);
            proof {
                assert(faces@.drop_last() =~= old_faces);
                assert forall|f: int|
                    #![trigger faces@[f]]
                    0 <= f < faces@.len() implies starts_lowest(faces@, f) && stops_at_used(faces@, f, n, *next) by {
                    if f < old_faces.len() {
                        assert(faces@[f] == old_faces[f]);
                        assert(faces@.subrange(0, f) =~= old_faces.subrange(0, f));
                        assert(faces@.subrange(0, f + 1) =~= old_faces.subrange(0, f + 1));
                        assert(starts_lowest(old_faces, f) && stops_at_used(old_faces, f, n, *next));
                    } else {
                        assert(faces@.subrange(0, f) =~= old_faces);
                        assert(faces@.subrange(0, f + 1) =~= faces@);
                        assert(concat_faces(faces@) =~= done + faces@[f]@);
                        assert(faces@[f]@[0] == e);
                        assert(!done.contains(e));
                        assert forall|x: usize| x < faces@[f]@[0] implies #[trigger] concat_faces(
                            faces@.subrange(0, f),
                        ).contains(x) by {
                            assert(done.contains(x));
                        }
                        assert(next.ensures((faces@[f]@.last(),), stop));
                    }
                }
                assert(concat_faces(faces@) =~= done + face@);
                assert forall|f: int| 0 <= f < faces@.len() implies #[trigger] faces@[f]@.len() > 0 && is_walk(
                    faces@[f]@,
                    *next,
                ) by {
                    if f < faces@.len() - 1 {
                        assert(faces@[f] == faces@.drop_last()[f]);
                    }
                }
            }
        }
        proof {
            assert(forall|f: int|
                #![trigger faces@[f]]
                0 <= f < faces@.len() ==> starts_lowest(faces@, f) && stops_at_used(faces@, f, n, *next));
        }
        e = e + 1;
    }
    faces
}

} // verus!
