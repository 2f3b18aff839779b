//! Polygons as lists of edges.
//!
//! A mesh is a closed polygon given by its points in order. Its edges are
//! written out as pairs of endpoints: edge `j` joins point `j` to point
//! `j + 1`, and the last edge closes the polygon back to point 0.
use vstd::arithmetic::div_mod::{lemma_mod_self_0, lemma_small_mod};
use vstd::prelude::*;

verus! {

/// The meshes, each by the sequence of its points.
pub open spec fn mesh_views<P>(meshes: Seq<Vec<P>>) -> Seq<Seq<P>> {
    meshes.map_values(|m: Vec<P>| m@)
}

/// The endpoints of the edges of the closed polygon `mesh`, two per edge:
/// entries `2j` and `2j + 1` are point `j` and point `(j + 1) mod n`.
pub open spec fn polygon_edge_points<P>(mesh: Seq<P>) -> Seq<P> {
    Seq::new(
        2 * mesh.len(),
        |k: int|
            if k % 2 == 0 {
                mesh[k / 2]
            } else {
                mesh[(k / 2 + 1) % (mesh.len() as int)]
            },
    )
}

/// The edge endpoints of all meshes, mesh after mesh.
pub open spec fn meshes_edge_points<P>(meshes: Seq<Seq<P>>) -> Seq<P>
    decreases meshes.len(),
{
    if meshes.len() == 0 {
        Seq::empty()
    } else {
        meshes_edge_points(meshes.drop_last()) + polygon_edge_points(meshes.last())
    }
}

/// The number of points of all meshes together.
pub open spec fn total_points<P>(meshes: Seq<Seq<P>>) -> nat
    decreases meshes.len(),
{
    if meshes.len() == 0 {
        0
    } else {
        total_points(meshes.drop_last()) + meshes.last().len()
    }
}

/// Every mesh has a point.
pub open spec fn no_empty_mesh<P>(meshes: Seq<Seq<P>>) -> bool {
    forall|i: int| 0 <= i < meshes.len() ==> (#[trigger] meshes[i]).len() > 0
}

/// The points of the first meshes are no more than those of all.
pub proof fn lemma_total_points_prefix<P>(meshes: Seq<Seq<P>>, k: int)
    requires
        0 <= k <= meshes.len(),
    ensures
        total_points(meshes.take(k)) <= total_points(meshes),
    decreases meshes.len() - k,
{
    if k < meshes.len() {
        lemma_total_points_prefix(meshes, k + 1);
        assert(meshes.take(k + 1).drop_last() =~= meshes.take(k));
    } else {
        assert(meshes.take(k) =~= meshes);
    }
}

/// Writing meshes out as edges gives two endpoints for every point: a
/// polygon of `n` points has `n` edges.
pub proof fn lemma_two_endpoints_per_point<P>(meshes: Seq<Seq<P>>)
    ensures
        meshes_edge_points(meshes).len() == 2 * total_points(meshes),
    decreases meshes.len(),
{
    if meshes.len() > 0 {
        lemma_two_endpoints_per_point(meshes.drop_last());
    }
}

/// Each edge written out for a mesh ends where the next one starts, and the
/// last one ends where the first one starts: the edges form a closed loop.
pub proof fn lemma_edges_form_closed_loop<P>(mesh: Seq<P>, j: int)
    requires
        0 <= j < mesh.len(),
    ensures
        polygon_edge_points(mesh)[2 * j + 1] == polygon_edge_points(mesh)[(2 * j + 2) % (2
            * mesh.len() as int)],
{
    let n = mesh.len() as int;
    let e = polygon_edge_points(mesh);
    if j + 1 < n {
        lemma_small_mod((2 * j + 2) as nat, (2 * n) as nat);
        assert((2 * j + 1) / 2 == j);
        assert((2 * j + 2) / 2 == j + 1);
        lemma_small_mod((j + 1) as nat, n as nat);
    } else {
        lemma_mod_self_0(2 * n);
        lemma_small_mod(0, (2 * n) as nat);
        assert((2 * j + 1) / 2 == j);
        lemma_mod_self_0(n);
    }
}

/// The points of the meshes together are as many as their concatenation
/// holds.
pub proof fn lemma_total_points_is_flat_len<P>(meshes: Seq<Seq<P>>)
    ensures
        total_points(meshes) == meshes.flatten().len(),
    decreases meshes.len(),
{
    lemma_total_points_is_flat_alt_len(meshes);
    meshes.lemma_flatten_and_flatten_alt_are_equivalent();
}

proof fn lemma_total_points_is_flat_alt_len<P>(meshes: Seq<Seq<P>>)
    ensures
        total_points(meshes) == meshes.flatten_alt().len(),
    decreases meshes.len(),
{
    if meshes.len() > 0 {
        lemma_total_points_is_flat_alt_len(meshes.drop_last());
    }
}

/// Mesh `i` starts in the concatenation of the meshes where the first `i`
/// meshes end, and ends where the first `i + 1` end, within the whole.
pub proof fn lemma_mesh_offset<P>(meshes: Seq<Seq<P>>, i: int)
    requires
        0 <= i < meshes.len(),
    ensures
        meshes.take(i).flatten().len() + meshes[i].len() == meshes.take(i + 1).flatten().len(),
        meshes.take(i + 1).flatten().len() <= meshes.flatten().len(),
{
    lemma_total_points_is_flat_len(meshes.take(i));
    lemma_total_points_is_flat_len(meshes.take(i + 1));
    lemma_total_points_is_flat_len(meshes);
    assert(meshes.take(i + 1).drop_last() =~= meshes.take(i));
    lemma_total_points_prefix(meshes, i + 1);
}

/// Writing meshes out as edges lays out, for point `j` of mesh `i`, at
/// twice its place in the concatenation of all points, the point itself
/// and the next point of its polygon, wrapping around to the polygon's
/// first point: the edge from point `j` to point `(j + 1) mod n`. There are
/// two entries for every point.
pub proof fn lemma_edges_join_consecutive_points<P>(meshes: Seq<Seq<P>>, i: int, j: int)
    requires
        0 <= i < meshes.len(),
        0 <= j < meshes[i].len(),
    ensures
        meshes_edge_points(meshes).len() == 2 * meshes.flatten().len(),
        meshes_edge_points(meshes)[2 * (meshes.take(i).flatten().len() + j)] == meshes[i][j],
        meshes_edge_points(meshes)[2 * (meshes.take(i).flatten().len() + j) + 1] == meshes[i][(j
            + 1) % (meshes[i].len() as int)],
    decreases meshes.len(),
{
    lemma_two_endpoints_per_point(meshes);
    lemma_total_points_is_flat_len(meshes);
    let d = meshes.drop_last();
    lemma_two_endpoints_per_point(d);
    lemma_total_points_is_flat_len(d);
    if i < meshes.len() - 1 {
        assert(d[i] == meshes[i]);
        lemma_edges_join_consecutive_points(d, i, j);
        assert(d.take(i) =~= meshes.take(i));
        assert(d.take(i + 1) =~= meshes.take(i + 1));
        lemma_mesh_offset(d, i);
    } else {
        assert(meshes.take(i) =~= d);
        let m = meshes[i];
        let e = polygon_edge_points(m);
        assert((2 * j) % 2 == 0 && (2 * j) / 2 == j);
        assert((2 * j + 1) % 2 == 1 && (2 * j + 1) / 2 == j);
        assert(e[2 * j] == m[j]);
        assert(e[2 * j + 1] == m[(j + 1) % (m.len() as int)]);
    }
}

/// Appends the edges of every mesh to `segments`, two endpoints per edge,
/// and returns the number of points of all meshes.
pub fn meshes_to_segments<P: Copy>(meshes: &Vec<Vec<P>>, segments: &mut Vec<P>) -> (count: usize)
    requires
        no_empty_mesh(mesh_views(meshes@)),
        total_points(mesh_views(meshes@)) <= usize::MAX,
    ensures
        final(segments)@ == old(segments)@ + meshes_edge_points(mesh_views(meshes@)),
        count == total_points(mesh_views(meshes@)),
        count == mesh_views(meshes@).flatten().len(),
        final(segments)@.len() == old(segments)@.len() + 2 * count,
        forall|i: int, j: int|
            0 <= i < meshes@.len() && 0 <= j < meshes@[i]@.len() ==> {
                let at = old(segments)@.len() + 2 * (mesh_views(meshes@).take(i).flatten().len()
                    + j);
                &&& final(segments)@[at] == #[trigger] meshes@[i]@[j]
                &&& final(segments)@[at + 1] == meshes@[i]@[(j + 1) % (meshes@[i]@.len() as int)]
            },
{
    let ghost views = mesh_views(meshes@);
    let ghost base = segments@;
    let mut count: usize = 0;
    let mut mi: usize = 0;
    while mi < meshes.len()
        invariant
            0 <= mi <= meshes@.len(),
            views == mesh_views(meshes@),
            no_empty_mesh(views),
            total_points(views) <= usize::MAX,
            segments@ == base + meshes_edge_points(views.take(mi as int)),
            count == total_points(views.take(mi as int)),
        decreases meshes@.len() - mi,
    {
        let mesh = &meshes[mi];
        let ghost m = mesh@;
        assert(views[mi as int] == m);
        assert(m.len() > 0);
        let ghost before = segments@;
        let first = mesh[0];
        segments.push(first);
        let mut i: usize = 1;
        while i < mesh.len()
            invariant
                1 <= i <= m.len(),
                m == mesh@,
                segments@ == before + Seq::new(
                    (2 * i - 1) as nat,
                    |k: int|
                        if k == 0 {
                            m[0]
                        } else {
                            m[(k + 1) / 2]
                        },
                ),
            decreases m.len() - i,
        {
            let current = mesh[i];
            segments.push(current);
            segments.push(current);
            proof {
                let pre = Seq::new(
                    (2 * i + 1) as nat,
                    |k: int|
                        if k == 0 {
                            m[0]
                        } else {
                            m[(k + 1) / 2]
                        },
                );
                assert(segments@ =~= before + pre);
            }
            i = i + 1;
        }
        segments.push(first);
        proof {
            let e = polygon_edge_points(m);
            let n = m.len() as int;
            assert forall|i: int|
                before.len() <= i < before.len() + 2 * n implies #[trigger] segments@[i] == e[i
                - before.len()] by {
                let k = i - before.len();
                if k == 2 * n - 1 {
                    assert((k / 2 + 1) % n == 0) by {
                        assert(k / 2 == n - 1);
                        lemma_mod_self_0(n);
                    }
                } else if k % 2 == 0 {
                    if k > 0 {
                        assert((k + 1) / 2 == k / 2);
                    }
                } else {
                    assert((k + 1) / 2 == k / 2 + 1);
                    lemma_small_mod((k / 2 + 1) as nat, n as nat);
                }
            }
            assert(segments@ =~= before + e);
            assert(views.take(mi + 1).drop_last() =~= views.take(mi as int));
            lemma_total_points_prefix(views, mi + 1);
        }
        count = count + mesh.len();
        mi = mi + 1;
    }
    assert(views.take(meshes@.len() as int) =~= views);
    proof {
        lemma_total_points_is_flat_len(views);
        lemma_two_endpoints_per_point(views);
        assert forall|i: int, j: int|
            0 <= i < meshes@.len() && 0 <= j < meshes@[i]@.len() implies {
                let at = base.len() + 2 * (views.take(i).flatten().len() + j);
                &&& segments@[at] == #[trigger] meshes@[i]@[j]
                &&& segments@[at + 1] == meshes@[i]@[(j + 1) % (meshes@[i]@.len() as int)]
            } by {
            assert(views[i] == meshes@[i]@);
            lemma_edges_join_consecutive_points(views, i, j);
            lemma_mesh_offset(views, i);
            let idx = 2 * (views.take(i).flatten().len() + j);
            assert(idx + 1 < meshes_edge_points(views).len());
            assert(segments@[base.len() + idx] == meshes_edge_points(views)[idx]);
            assert(segments@[base.len() + idx + 1] == meshes_edge_points(views)[idx + 1]);
        }
    }
    count
}

} // verus!
