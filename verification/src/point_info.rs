//! The point table handed to the shadow caster.
//!
//! All points of all meshes are laid out one after the other, followed by the
//! four corners of a large bounding square. Beside every point stands an
//! `i8` "next id": the first point of a polygon holds the offset to its last
//! point, the last point holds the negated offset back to its first point, and
//! every other point holds 0. The offset is computed in `i8`, so polygons of
//! 128 points or more get a wrapped offset.
use crate::segments::{mesh_views, total_points};
use vstd::prelude::*;

verus! {

/// The point table: the points, and beside each of them its next id.
pub struct PointInfo<P> {
    pub points: Vec<P>,
    pub next_ids: Vec<i8>,
}

/// All points of all meshes, mesh after mesh.
pub open spec fn concat_points<P>(meshes: Seq<Seq<P>>) -> Seq<P>
    decreases meshes.len(),
{
    if meshes.len() == 0 {
        Seq::empty()
    } else {
        concat_points(meshes.drop_last()) + meshes.last()
    }
}

/// The offset that the first point of a polygon of `len` points holds: the
/// length taken as an `i8`, minus one.
pub open spec fn first_offset(len: usize) -> int {
    (len as i8) as int - 1
}

/// A polygon of `len` points can be given next ids: it has a point, and
/// neither its offset nor the negated offset leaves the range of `i8`.
pub open spec fn ids_encodable(len: usize) -> bool {
    len > 0 && (len as i8) >= -126
}

/// The next ids of a polygon of `len` points.
pub open spec fn polygon_next_ids(len: usize) -> Seq<i8> {
    Seq::new(
        len as nat,
        |k: int|
            if k == len - 1 {
                (-first_offset(len)) as i8
            } else if k == 0 {
                first_offset(len) as i8
            } else {
                0i8
            },
    )
}

/// The next ids of all meshes, mesh after mesh.
pub open spec fn meshes_next_ids<P>(meshes: Seq<Seq<P>>) -> Seq<i8>
    decreases meshes.len(),
{
    if meshes.len() == 0 {
        Seq::empty()
    } else {
        meshes_next_ids(meshes.drop_last()) + polygon_next_ids(meshes.last().len() as usize)
    }
}

/// The next ids of the bounding square.
pub open spec fn boundary_next_ids() -> Seq<i8> {
    seq![3i8, 0i8, 0i8, -3i8]
}

/// Every mesh can be given next ids.
pub open spec fn all_ids_encodable<P>(meshes: Seq<Seq<P>>) -> bool {
    forall|i: int|
        0 <= i < meshes.len() ==> (#[trigger] meshes[i]).len() <= usize::MAX && ids_encodable(
            meshes[i].len() as usize,
        )
}

/// The points of all meshes number `total_points`.
pub proof fn lemma_concat_len<P>(meshes: Seq<Seq<P>>)
    ensures
        concat_points(meshes).len() == total_points(meshes),
    decreases meshes.len(),
{
    if meshes.len() > 0 {
        lemma_concat_len(meshes.drop_last());
    }
}

/// There is one next id for every point.
pub proof fn lemma_one_id_per_point<P>(meshes: Seq<Seq<P>>)
    requires
        forall|i: int| 0 <= i < meshes.len() ==> (#[trigger] meshes[i]).len() <= usize::MAX,
    ensures
        meshes_next_ids(meshes).len() == concat_points(meshes).len(),
    decreases meshes.len(),
{
    if meshes.len() > 0 {
        let m = meshes.drop_last();
        assert forall|i: int| 0 <= i < m.len() implies (#[trigger] m[i]).len() <= usize::MAX by {
            assert(m[i] == meshes[i]);
        }
        lemma_one_id_per_point(m);
        assert(meshes[meshes.len() - 1].len() <= usize::MAX);
    }
}

/// For a polygon of 2 to 127 points, the offset at its first point leads to
/// its last point and the offset at its last point leads back to its first;
/// the points between hold 0.
pub proof fn lemma_offsets_link_first_and_last(len: usize)
    requires
        2 <= len <= 127,
    ensures
        polygon_next_ids(len).len() == len,
        0 + polygon_next_ids(len)[0] == len - 1,
        (len - 1) + polygon_next_ids(len)[len - 1] == 0,
        forall|k: int| 0 < k < len - 1 ==> polygon_next_ids(len)[k] == 0,
{
    assert((len as i8) as int == len) by (bit_vector)
        requires
            2 <= len <= 127,
    ;
}

/// Laying out the points of the meshes one after the other gives their
/// concatenation: every point of every mesh, unchanged and in order.
pub proof fn lemma_concat_points_is_flatten<P>(meshes: Seq<Seq<P>>)
    ensures
        concat_points(meshes) == meshes.flatten(),
    decreases meshes.len(),
{
    meshes.lemma_flatten_and_flatten_alt_are_equivalent();
    if meshes.len() > 0 {
        let d = meshes.drop_last();
        lemma_concat_points_is_flatten(d);
        d.lemma_flatten_and_flatten_alt_are_equivalent();
    }
}

/// Point `k` of mesh `i` stands in the concatenation of the meshes at the
/// place where the points of the first `i` meshes end, plus `k`.
pub proof fn lemma_point_at_offset<P>(meshes: Seq<Seq<P>>, i: int, k: int)
    requires
        0 <= i < meshes.len(),
        0 <= k < meshes[i].len(),
    ensures
        meshes.take(i).flatten().len() + k < meshes.flatten().len(),
        meshes.flatten()[meshes.take(i).flatten().len() + k] == meshes[i][k],
    decreases meshes.len(),
{
    let d = meshes.drop_last();
    lemma_concat_points_is_flatten(meshes);
    lemma_concat_points_is_flatten(d);
    if i < meshes.len() - 1 {
        assert(d[i] == meshes[i]);
        lemma_point_at_offset(d, i, k);
        assert(d.take(i) =~= meshes.take(i));
    } else {
        assert(meshes.take(i) =~= d);
    }
}

/// Beside point `k` of mesh `i` stands its next id: the first point of a
/// polygon of `len` points holds the offset `len - 1` (taken in `i8`), its
/// last point the negated offset, and every other point 0. There is one next
/// id for every point.
pub proof fn lemma_next_id_at_offset<P>(meshes: Seq<Seq<P>>, i: int, k: int)
    requires
        0 <= i < meshes.len(),
        0 <= k < meshes[i].len(),
        forall|j: int| 0 <= j < meshes.len() ==> (#[trigger] meshes[j]).len() <= usize::MAX,
    ensures
        meshes_next_ids(meshes).len() == meshes.flatten().len(),
        meshes_next_ids(meshes)[meshes.take(i).flatten().len() + k] == (if k == meshes[i].len()
            - 1 {
            (-first_offset(meshes[i].len() as usize)) as i8
        } else if k == 0 {
            first_offset(meshes[i].len() as usize) as i8
        } else {
            0i8
        }),
    decreases meshes.len(),
{
    let d = meshes.drop_last();
    lemma_concat_points_is_flatten(meshes);
    lemma_concat_points_is_flatten(d);
    lemma_one_id_per_point(meshes);
    assert forall|j: int| 0 <= j < d.len() implies (#[trigger] d[j]).len() <= usize::MAX by {
        assert(d[j] == meshes[j]);
    }
    lemma_one_id_per_point(d);
    if i < meshes.len() - 1 {
        assert(d[i] == meshes[i]);
        lemma_next_id_at_offset(d, i, k);
        assert(d.take(i) =~= meshes.take(i));
        lemma_point_at_offset(d, i, k);
    } else {
        assert(meshes.take(i) =~= d);
        assert(meshes[i].len() <= usize::MAX);
        let len = meshes[i].len() as usize;
        assert(len as int == meshes[i].len());
        assert(meshes_next_ids(meshes) == meshes_next_ids(d) + polygon_next_ids(len));
        assert(meshes_next_ids(meshes)[d.flatten().len() + k] == polygon_next_ids(len)[k]);
    }
}

/// The bounding square is given the next ids of a polygon of four points.
pub proof fn lemma_boundary_ids_are_a_square()
    ensures
        boundary_next_ids() == polygon_next_ids(4),
{
    assert((4usize as i8) as int == 4) by (bit_vector);
    assert(boundary_next_ids() =~= polygon_next_ids(4));
}

/// Whether a polygon of `len` points can be given next ids; laying out a
/// mesh for which this is false fails.
pub fn mesh_ids_encodable(len: usize) -> (ok: bool)
    ensures
        ok == ids_encodable(len),
{
    len > 0 && (len as i8) >= -126
}

/// Lays out the points of all meshes followed by the four corners of the
/// bounding square, and beside each point its next id.
pub fn build_point_info<P: Copy>(meshes: &Vec<Vec<P>>, boundary: &[P; 4]) -> (info: PointInfo<P>)
    requires
        all_ids_encodable(mesh_views(meshes@)),
    ensures
        info.points@ == concat_points(mesh_views(meshes@)) + boundary@,
        info.next_ids@ == meshes_next_ids(mesh_views(meshes@)) + boundary_next_ids(),
        info.points@ == mesh_views(meshes@).flatten() + boundary@,
        info.points@.len() == mesh_views(meshes@).flatten().len() + 4,
        info.next_ids@.len() == info.points@.len(),
        forall|i: int, k: int|
            0 <= i < meshes@.len() && 0 <= k < meshes@[i]@.len() ==> {
                let at = mesh_views(meshes@).take(i).flatten().len() + k;
                let len = meshes@[i]@.len() as usize;
                &&& info.points@[at] == #[trigger] meshes@[i]@[k]
                &&& info.next_ids@[at] == (if k == len - 1 {
                    (-first_offset(len)) as i8
                } else if k == 0 {
                    first_offset(len) as i8
                } else {
                    0i8
                })
            },
        forall|b: int|
            0 <= b < 4 ==> info.points@[mesh_views(meshes@).flatten().len() + b] == #[trigger] boundary@[b],
        info.next_ids@[mesh_views(meshes@).flatten().len() + 0int] == 3,
        info.next_ids@[mesh_views(meshes@).flatten().len() + 1int] == 0,
        info.next_ids@[mesh_views(meshes@).flatten().len() + 2int] == 0,
        info.next_ids@[mesh_views(meshes@).flatten().len() + 3int] == -3,
{
    let ghost views = mesh_views(meshes@);
    let mut points: Vec<P> = Vec::new();
    let mut next_ids: Vec<i8> = Vec::new();
    let mut mi: usize = 0;
    while mi < meshes.len()
        invariant
            0 <= mi <= meshes@.len(),
            views == mesh_views(meshes@),
            all_ids_encodable(views),
            points@ == concat_points(views.take(mi as int)),
            next_ids@ == meshes_next_ids(views.take(mi as int)),
        decreases meshes@.len() - mi,
    {
        let mesh = &meshes[mi];
        assert(views[mi as int] == mesh@);
        let ghost before = points@;
        let mut pi: usize = 0;
        while pi < mesh.len()
            invariant
                0 <= pi <= mesh@.len(),
                points@ == before + mesh@.take(pi as int),
            decreases mesh@.len() - pi,
        {
            points.push(mesh[pi]);
            assert(mesh@.take(pi + 1) =~= mesh@.take(pi as int).push(mesh@[pi as int]));
            pi = pi + 1;
        }
        assert(mesh@.take(mesh@.len() as int) =~= mesh@);
        let length = mesh.len();
        assert(ids_encodable(length));
        let offset: i8 = (length as i8) - 1;
        let mut ids: Vec<i8> = vec![0; length];
        ids.set(0, offset);
        ids.set(length - 1, -offset);
        assert(ids@ =~= polygon_next_ids(length));
        next_ids.append(&mut ids);
        proof {
            assert(views.take(mi + 1).drop_last() =~= views.take(mi as int));
        }
        mi = mi + 1;
    }
    assert(views.take(meshes@.len() as int) =~= views);
    let mut bi: usize = 0;
    let ghost before = points@;
    while bi < 4
        invariant
            0 <= bi <= 4,
            points@ == before + boundary@.take(bi as int),
        decreases 4 - bi,
    {
        points.push(boundary[bi]);
        assert(boundary@.take(bi + 1) =~= boundary@.take(bi as int).push(boundary@[bi as int]));
        bi = bi + 1;
    }
    assert(boundary@.take(4) =~= boundary@);
    next_ids.push(3);
    next_ids.push(0);
    next_ids.push(0);
    next_ids.push(-3);
    assert(next_ids@ =~= meshes_next_ids(views) + boundary_next_ids());
    proof {
        lemma_concat_points_is_flatten(views);
        assert forall|i: int| 0 <= i < views.len() implies (#[trigger] views[i]).len() <= usize::MAX by {
            assert(ids_encodable(views[i].len() as usize));
        }
        lemma_one_id_per_point(views);
        assert forall|i: int, k: int|
            0 <= i < meshes@.len() && 0 <= k < meshes@[i]@.len() implies {
                let at = views.take(i).flatten().len() + k;
                let len = meshes@[i]@.len() as usize;
                &&& points@[at] == #[trigger] meshes@[i]@[k]
                &&& next_ids@[at] == (if k == len - 1 {
                    (-first_offset(len)) as i8
                } else if k == 0 {
                    first_offset(len) as i8
                } else {
                    0i8
                })
            } by {
            assert(views[i] == meshes@[i]@);
            lemma_point_at_offset(views, i, k);
            lemma_next_id_at_offset(views, i, k);
        }
    }
    PointInfo { points, next_ids }
}

} // verus!
