use vstd::prelude::*;
use vstd::std_specs::cmp::PartialEqSpec;
use vstd::std_specs::cmp::PartialOrdSpec;
use vstd::laws_cmp::obeys_partial_cmp_spec_properties;
use vstd::laws_eq::obeys_concrete_eq;

use crate::path::{chain_points, lemma_chain_last, EntityId, PathParts, PathPoint, PathSeg, PathSegments};

verus! {

/// Whether the next points continue where `dest` ends: `dest` is not empty and its
/// last position equals the first of `pts`.
pub open spec fn continues<P: PartialEq>(dest: Seq<PathPoint<P>>, pts: Seq<PathPoint<P>>) -> bool {
    dest.len() > 0 && pts.len() > 0 && dest.last().point.eq_spec(&pts[0].point)
}

/// `pts` appended to `dest`, without its first point where that point repeats the
/// last one of `dest`.
pub open spec fn join_points<P: PartialEq>(dest: Seq<PathPoint<P>>, pts: Seq<PathPoint<P>>) -> Seq<PathPoint<P>> {
    if continues(dest, pts) {
        dest + pts.drop_first()
    } else {
        dest + pts
    }
}

/// Appends the points of `seg` to `dest`, skipping the segment's first point when it
/// lies where the last point of `dest` lies.
pub fn append_all_points<P: Copy + PartialEq>(dest: &mut Vec<PathPoint<P>>, seg: PathSeg<P>)
    ensures
        final(dest)@ == old(dest)@ + seg.pts()
            || (old(dest)@.len() > 0 && final(dest)@ == old(dest)@ + seg.pts().drop_first()),
        P::obeys_eq_spec() ==> final(dest)@ == join_points(old(dest)@, seg.pts()),
{
    let pts = seg.to_points();
    let first = pts[0];
    let n = dest.len();
    let repeats = if n > 0 {
        dest[n - 1].point == first.point
    } else {
        false
    };
    let ghost before = dest@;
    if !repeats {
        dest.push(first);
    }
    let mut i: usize = 1;
    while i < pts.len()
        invariant
            1 <= i <= pts@.len(),
            pts@ == seg.pts(),
            repeats ==> n > 0,
            before.len() == n,
            dest@ == (if repeats { before } else { before.push(pts@[0]) }) + pts@.subrange(1, i as int),
        decreases pts@.len() - i,
    {
        dest.push(pts[i]);
        i = i + 1;
        assert(dest@ == (if repeats { before } else { before.push(pts@[0]) }) + pts@.subrange(1, i as int));
    }
    assert(pts@.subrange(1, pts@.len() as int) =~= pts@.drop_first());
    assert(before.push(pts@[0]) + pts@.drop_first() =~= before + pts@);
}

/// Where the knife's line crosses a segment of a path: the parameter on the line
/// (`line_t`), the parameter on the segment (`segment_t`), the position of the
/// crossing and the segment itself.
#[derive(Clone, Copy, Debug)]
pub struct Hit<P, T> {
    pub line_t: T,
    pub segment_t: T,
    pub point: P,
    pub seg: PathSeg<P>,
}

/// In `segs`, a segment with id `a` comes before any segment with id `b`.
pub open spec fn precedes<P>(segs: Seq<PathSeg<P>>, a: EntityId, b: EntityId) -> bool {
    exists|i: int|
        0 <= i < segs.len() && #[trigger] segs[i].id_spec() == a && forall|j: int|
            0 <= j < i ==> segs[j].id_spec() != b
}

/// Some segment of `segs` has id `a` or id `b`.
pub open spec fn holds_either<P>(segs: Seq<PathSeg<P>>, a: EntityId, b: EntityId) -> bool {
    exists|i: int| 0 <= i < segs.len() && (#[trigger] segs[i].id_spec() == a || segs[i].id_spec() == b)
}

/// The two cut points in the order they come in the path: the one whose segment
/// comes first goes first; when both lie on one segment, `end` goes first only where
/// its parameter on that segment is the smaller.
pub open spec fn ordered_spec<P, T: PartialOrd>(segs: Seq<PathSeg<P>>, start: Hit<P, T>, end: Hit<P, T>) -> (Hit<P, T>, Hit<P, T>) {
    if start.seg.id_spec() == end.seg.id_spec() {
        if end.segment_t.partial_cmp_spec(&start.segment_t) == Some(std::cmp::Ordering::Less) {
            (end, start)
        } else {
            (start, end)
        }
    } else if precedes(segs, start.seg.id_spec(), end.seg.id_spec()) {
        (start, end)
    } else {
        (end, start)
    }
}

/// Orders two cut points by where they come in the path: the one whose segment
/// comes first goes first; when both lie on one segment, the one with the smaller
/// parameter on that segment goes first.
pub fn order_points<P, T: PartialOrd>(segs: &Vec<PathSeg<P>>, start: Hit<P, T>, end: Hit<P, T>) -> (r: (Hit<P, T>, Hit<P, T>))
    requires
        holds_either(segs@, start.seg.id_spec(), end.seg.id_spec()),
    ensures
        r == (start, end) || r == (end, start),
        start.seg.id_spec() != end.seg.id_spec() || T::obeys_partial_cmp_spec() ==> r == ordered_spec(segs@, start, end),
        forall|i: int, j: int|
            0 <= i < segs@.len() && 0 <= j < segs@.len() && i != j && distinct_ids(segs@) && #[trigger] segs@[i].id_spec()
                == start.seg.id_spec() && #[trigger] segs@[j].id_spec() == end.seg.id_spec() ==> r == (if i < j {
                (start, end)
            } else {
                (end, start)
            }),
{
    let a = start.seg.start_id();
    let b = end.seg.start_id();
    let mut i: usize = 0;
    let ghost mut gi: int = 0;
    while i < segs.len()
        invariant
            gi == i,
            0 <= i <= segs@.len(),
            a == start.seg.id_spec(),
            b == end.seg.id_spec(),
            forall|j: int| 0 <= j < i ==> segs@[j].id_spec() != a && segs@[j].id_spec() != b,
        decreases segs@.len() - i,
    {
        let id = segs[i].start_id();
        if id == a {
            assert(precedes(segs@, a, b)) by {
                assert(segs@[gi].id_spec() == a);
            }
            if id == b && end.segment_t < start.segment_t {
                proof {
                    lemma_order_index_all(segs@, start, end);
                }
                return (end, start);
            }
            proof {
                lemma_order_index_all(segs@, start, end);
            }
            return (start, end);
        } else if id == b {
            assert(!precedes(segs@, a, b)) by {
                if precedes(segs@, a, b) {
                    let k = choose|k: int|
                        0 <= k < segs@.len() && #[trigger] segs@[k].id_spec() == a && forall|j: int|
                            0 <= j < k ==> segs@[j].id_spec() != b;
                    if k > i {
                        assert(segs@[gi].id_spec() == b);
                    }
                }
            }
            proof {
                lemma_order_index_all(segs@, start, end);
            }
            return (end, start);
        }
        i = i + 1;
        proof {
            gi = gi + 1;
        }
    }
    (start, end)
}

} // verus!

verus! {

/// The points of `segs`, joined one after another onto `acc`.
pub open spec fn join_segs<P: PartialEq>(acc: Seq<PathPoint<P>>, segs: Seq<PathSeg<P>>) -> Seq<PathPoint<P>>
    decreases segs.len(),
{
    if segs.len() == 0 {
        acc
    } else {
        join_points(join_segs(acc, segs.drop_last()), segs.last().pts())
    }
}

/// The index of the first segment, at `from` or after it, whose id is `id`;
/// `segs.len()` where there is none.
pub open spec fn find_seg<P>(segs: Seq<PathSeg<P>>, from: nat, id: EntityId) -> nat
    decreases segs.len() - from,
{
    if from >= segs.len() {
        segs.len()
    } else if segs[from as int].id_spec() == id {
        from
    } else {
        find_seg(segs, from + 1, id)
    }
}

/// A search that met no segment with id `id` in `from..k` and stopped at `k`, at the
/// end or at such a segment, found what `find_seg` names.
pub proof fn lemma_find_seg<P>(segs: Seq<PathSeg<P>>, from: nat, k: nat, id: EntityId)
    requires
        from <= k <= segs.len(),
        forall|j: int| from <= j < k ==> segs[j].id_spec() != id,
        k == segs.len() || segs[k as int].id_spec() == id,
    ensures
        find_seg(segs, from, id) == k,
    decreases k - from,
{
    if from < k {
        lemma_find_seg(segs, from + 1, k, id);
    }
}

/// `pts` with every point moved into the path `parent`.
pub open spec fn with_parent<P>(pts: Seq<PathPoint<P>>, parent: usize) -> Seq<PathPoint<P>> {
    pts.map_values(|p: PathPoint<P>| PathPoint { id: EntityId { parent: parent, idx: p.id.idx }, point: p.point, typ: p.typ })
}

/// `pts` without its last point where that point lies where the first one lies.
pub open spec fn drop_closing<P: PartialEq>(pts: Seq<PathPoint<P>>) -> Seq<PathPoint<P>> {
    if pts.len() > 0 && pts[0].point.eq_spec(&pts.last().point) {
        pts.drop_last()
    } else {
        pts
    }
}

/// `pts` with its first point moved to the end.
pub open spec fn rotate_one<P>(pts: Seq<PathPoint<P>>) -> Seq<PathPoint<P>> {
    if pts.len() > 0 {
        pts.drop_first().push(pts[0])
    } else {
        pts
    }
}

/// The points of the first path of a cut, before they are moved into the path: the
/// segments before the one with id `a`, the piece `head` of that segment, then, from
/// the first segment with id `b` at or after it, the piece `tail` and the segments
/// that follow.
pub open spec fn first_path_raw<P: PartialEq>(
    segs: Seq<PathSeg<P>>,
    a: EntityId,
    b: EntityId,
    head: PathSeg<P>,
    tail: PathSeg<P>,
) -> Seq<PathPoint<P>> {
    let s = find_seg(segs, 0, a);
    if s >= segs.len() {
        join_segs(seq![], segs)
    } else {
        let before = join_points(join_segs(seq![], segs.subrange(0, s as int)), head.pts());
        let e = find_seg(segs, s, b);
        if e >= segs.len() {
            before
        } else {
            join_segs(join_points(before, tail.pts()), segs.subrange((e + 1) as int, segs.len() as int))
        }
    }
}

/// The points of the first path of a cut, as the path holds them.
pub open spec fn first_path_points<P: PartialEq>(
    path_id: usize,
    closed: bool,
    segs: Seq<PathSeg<P>>,
    a: EntityId,
    b: EntityId,
    head: PathSeg<P>,
    tail: PathSeg<P>,
) -> Seq<PathPoint<P>> {
    let pts = drop_closing(with_parent(first_path_raw(segs, a, b, head, tail), path_id));
    if closed {
        rotate_one(pts)
    } else {
        pts
    }
}

/// `pts`, each point moved into the path `parent`.
fn reparent<P: Copy>(pts: &Vec<PathPoint<P>>, parent: usize) -> (r: Vec<PathPoint<P>>)
    ensures
        r@ == with_parent(pts@, parent),
{
    let mut r: Vec<PathPoint<P>> = Vec::new();
    let mut i: usize = 0;
    while i < pts.len()
        invariant
            0 <= i <= pts@.len(),
            r@ == with_parent(pts@.subrange(0, i as int), parent),
        decreases pts@.len() - i,
    {
        let p = pts[i];
        r.push(PathPoint { id: EntityId { parent: parent, idx: p.id.idx }, point: p.point, typ: p.typ });
        i = i + 1;
        assert(r@ =~= with_parent(pts@.subrange(0, i as int), parent));
    }
    assert(pts@.subrange(0, pts@.len() as int) =~= pts@);
    r
}

/// Drops the last point of `pts` where it lies where the first one lies.
fn drop_closing_point<P: Copy + PartialEq>(pts: &mut Vec<PathPoint<P>>)
    ensures
        final(pts)@ == old(pts)@ || (old(pts)@.len() > 0 && final(pts)@ == old(pts)@.drop_last()),
        P::obeys_eq_spec() ==> final(pts)@ == drop_closing(old(pts)@),
{
    let n = pts.len();
    if n > 0 {
        if pts[0].point == pts[n - 1].point {
            pts.pop();
        }
    }
}

/// `pts` with its first point moved to the end.
fn rotate_left_one<P: Copy>(pts: &Vec<PathPoint<P>>) -> (r: Vec<PathPoint<P>>)
    requires
        pts@.len() > 0,
    ensures
        r@ == rotate_one(pts@),
{
    let mut r: Vec<PathPoint<P>> = Vec::new();
    let mut i: usize = 1;
    while i < pts.len()
        invariant
            1 <= i <= pts@.len(),
            r@ == pts@.subrange(1, i as int),
        decreases pts@.len() - i,
    {
        r.push(pts[i]);
        i = i + 1;
        assert(r@ =~= pts@.subrange(1, i as int));
    }
    r.push(pts[0]);
    assert(r@ =~= rotate_one(pts@));
    r
}

/// The path on the first side of a cut: the part that holds the path's start. It
/// keeps the path's id and whether it is closed. `head` is the segment with the
/// first cut point cut off after that point, and `tail` the segment with the second
/// cut point cut off before it.
pub fn slice_first_path<P: Copy + PartialEq, T>(
    path: &PathSegments<P>,
    start: &Hit<P, T>,
    end: &Hit<P, T>,
    head: PathSeg<P>,
    tail: PathSeg<P>,
) -> (r: PathParts<P>)
    requires
        path.closed ==> path.segs@.len() > 0,
    ensures
        r.id == path.id,
        r.closed == path.closed,
        path.segs@.len() > 0 ==> r.points@.len() >= 1,
        forall|k: int| 0 <= k < r.points@.len() ==> (#[trigger] r.points@[k]).id.parent == path.id,
        P::obeys_eq_spec() ==> r.points@ == first_path_points(
            path.id,
            path.closed,
            path.segs@,
            start.seg.id_spec(),
            end.seg.id_spec(),
            head,
            tail,
        ),
        P::obeys_eq_spec() && path.closed && first_cut_keeps_ends(path.segs@, start.seg.id_spec(), end.seg.id_spec(), head, tail)
            && path.segs@[0].pts()[0].point.eq_spec(&path.segs@.last().pts().last().point) ==> {
            &&& r.points@.len() + 1 == first_path_raw(path.segs@, start.seg.id_spec(), end.seg.id_spec(), head, tail).len()
            &&& r.points@[r.points@.len() - 1] == in_path(path.segs@[0].pts()[0], path.id)
        },
{
    let segs = &path.segs;
    let n = segs.len();
    let a = start.seg.start_id();
    let b = end.seg.start_id();
    let ghost sq = segs@;
    let mut points: Vec<PathPoint<P>> = Vec::new();
    let mut i: usize = 0;
    let mut found = false;
    while i < n && !found
        invariant
            n == sq.len(),
            sq == segs@,
            0 <= i <= n,
            a == start.seg.id_spec(),
            forall|j: int| 0 <= j < i ==> sq[j].id_spec() != a,
            !found ==> (i > 0 ==> points@.len() >= 2) && (i == 0 ==> points@.len() == 0),
            !found && P::obeys_eq_spec() ==> points@ == join_segs(seq![], sq.subrange(0, i as int)),
            found ==> i < n && sq[i as int].id_spec() == a && points@.len() >= 2,
            found && P::obeys_eq_spec() ==> points@ == join_points(join_segs(seq![], sq.subrange(0, i as int)), head.pts()),
        decreases n - i + (if found { 0int } else { 1int }),
    {
        let seg = segs[i];
        if seg.start_id() != a {
            append_all_points(&mut points, seg);
            i = i + 1;
            assert(sq.subrange(0, i as int).drop_last() =~= sq.subrange(0, i - 1));
        } else {
            append_all_points(&mut points, head);
            found = true;
        }
    }
    proof {
        lemma_find_seg(sq, 0, i as nat, a);
        if !found {
            assert(sq.subrange(0, n as int) =~= sq);
        }
    }
    let ghost before_end = points@;
    let mut j: usize = i;
    let mut found_end = false;
    if found {
        while j < n && !found_end
            invariant
                n == sq.len(),
                sq == segs@,
                i < n,
                i <= j <= n,
                b == end.seg.id_spec(),
                forall|k: int| i <= k < j && !(found_end && k == j - 1) ==> sq[k].id_spec() != b,
                !found_end ==> points@ == before_end,
                found_end ==> j > i && sq[j - 1].id_spec() == b && points@.len() >= 2,
                found_end && P::obeys_eq_spec() ==> points@ == join_points(before_end, tail.pts()),
                before_end.len() >= 2,
            decreases n - j + (if found_end { 0int } else { 1int }),
        {
            if segs[j].start_id() == b {
                append_all_points(&mut points, tail);
                found_end = true;
            }
            j = j + 1;
        }
        proof {
            if found_end {
                lemma_find_seg(sq, i as nat, (j - 1) as nat, b);
            } else {
                lemma_find_seg(sq, i as nat, j as nat, b);
            }
        }
    }
    let ghost after_end = points@;
    let ghost from = j;
    while j < n
        invariant
            n == sq.len(),
            sq == segs@,
            from <= j <= n,
            !found_end ==> j == n,
            points@.len() >= 2 || (points@.len() == 0 && !found && n == 0),
            P::obeys_eq_spec() ==> points@ == join_segs(after_end, sq.subrange(from as int, j as int)),
        decreases n - j,
    {
        append_all_points(&mut points, segs[j]);
        j = j + 1;
        assert(sq.subrange(from as int, j as int).drop_last() =~= sq.subrange(from as int, j - 1));
    }
    proof {
        if P::obeys_eq_spec() {
            assert(sq.subrange(from as int, from as int) =~= Seq::<PathSeg<P>>::empty());
            assert(points@ == first_path_raw(sq, a, b, head, tail));
        }
    }
    let mut pts = reparent(&points, path.id);
    drop_closing_point(&mut pts);
    let pts = if path.closed {
        rotate_left_one(&pts)
    } else {
        pts
    };
    proof {
        if P::obeys_eq_spec() && path.closed && first_cut_keeps_ends(sq, a, b, head, tail) && sq[0].pts()[0].point.eq_spec(
            &sq.last().pts().last().point,
        ) {
            lemma_first_path_closed_drops_repeat(path.id, sq, a, b, head, tail);
        }
    }
    PathParts { id: path.id, points: pts, closed: path.closed }
}

/// The points of the second path of a cut that come from the old path: the piece
/// `first_piece` of the segment with id `a`, then, unless that segment also has id
/// `b`, the segments that follow up to the first one with id `b`, and the piece
/// `end_piece` of it.
pub open spec fn second_path_body<P: PartialEq>(
    segs: Seq<PathSeg<P>>,
    a: EntityId,
    b: EntityId,
    first_piece: PathSeg<P>,
    end_piece: PathSeg<P>,
) -> Seq<PathPoint<P>> {
    let s = find_seg(segs, 0, a);
    let p = first_piece.pts();
    if segs[s as int].id_spec() == b {
        p
    } else {
        let e = find_seg(segs, s + 1, b);
        if e >= segs.len() {
            join_segs(p, segs.subrange((s + 1) as int, segs.len() as int))
        } else {
            join_points(join_segs(p, segs.subrange((s + 1) as int, e as int)), end_piece.pts())
        }
    }
}

/// The points of the second path of a cut, before they are moved into the path:
/// those that come from the old path, then, where the old path is open, the point
/// `cut_point` at the first cut, so that the path runs back along the cut from the
/// second cut point to the first.
pub open spec fn second_path_raw<P: PartialEq>(
    segs: Seq<PathSeg<P>>,
    closed: bool,
    a: EntityId,
    b: EntityId,
    first_piece: PathSeg<P>,
    end_piece: PathSeg<P>,
    cut_point: PathPoint<P>,
) -> Seq<PathPoint<P>> {
    let body = second_path_body(segs, a, b, first_piece, end_piece);
    if closed {
        body
    } else {
        body.push(cut_point)
    }
}

/// The points of the second path of a cut, as the path holds them.
pub open spec fn second_path_points<P: PartialEq>(
    new_id: usize,
    closed: bool,
    segs: Seq<PathSeg<P>>,
    a: EntityId,
    b: EntityId,
    first_piece: PathSeg<P>,
    end_piece: PathSeg<P>,
    cut_point: PathPoint<P>,
) -> Seq<PathPoint<P>> {
    rotate_one(with_parent(second_path_raw(segs, closed, a, b, first_piece, end_piece, cut_point), new_id))
}

/// Some segment of `segs` has id `a`.
pub open spec fn holds_seg<P>(segs: Seq<PathSeg<P>>, a: EntityId) -> bool {
    exists|i: int| 0 <= i < segs.len() && #[trigger] segs[i].id_spec() == a
}

/// The path on the second side of a cut: the part between the two cut points. It
/// gets the new id `new_id` and is always closed. `first_piece` is the segment of the
/// first cut point between that point and the second one (or the segment's end where
/// the second lies on another segment), `end_piece` the segment of the second cut
/// point up to that point, and `cut_point` the point at the first cut that, after
/// the second cut point, closes an open path along the cut.
pub fn slice_second_path<P: Copy + PartialEq, T>(
    path: &PathSegments<P>,
    new_id: usize,
    start: &Hit<P, T>,
    end: &Hit<P, T>,
    first_piece: PathSeg<P>,
    end_piece: PathSeg<P>,
    cut_point: PathPoint<P>,
) -> (r: PathParts<P>)
    requires
        holds_seg(path.segs@, start.seg.id_spec()),
    ensures
        r.id == new_id,
        r.closed,
        r.points@.len() >= 2,
        forall|k: int| 0 <= k < r.points@.len() ==> (#[trigger] r.points@[k]).id.parent == new_id,
        P::obeys_eq_spec() ==> r.points@ == second_path_points(
            new_id,
            path.closed,
            path.segs@,
            start.seg.id_spec(),
            end.seg.id_spec(),
            first_piece,
            end_piece,
            cut_point,
        ),
        P::obeys_eq_spec() && path.closed && start.seg.id_spec() == end.seg.id_spec() ==> {
            &&& r.points@.len() == first_piece.pts().len()
            &&& r.points@[r.points@.len() - 1] == in_path(first_piece.pts()[0], new_id)
            &&& forall|k: int|
                0 <= k < r.points@.len() - 1 ==> #[trigger] r.points@[k] == in_path(first_piece.pts()[k + 1], new_id)
        },
        P::obeys_eq_spec() && path.closed ==> forall|k: int|
            0 <= k < r.points@.len() ==> exists|q: PathPoint<P>|
                drawn_from(q, path.segs@, first_piece, end_piece) && #[trigger] r.points@[k] == in_path(q, new_id),
{
    let segs = &path.segs;
    let n = segs.len();
    let a = start.seg.start_id();
    let b = end.seg.start_id();
    let ghost sq = segs@;
    let mut i: usize = 0;
    while i < n && segs[i].start_id() != a
        invariant
            n == sq.len(),
            sq == segs@,
            0 <= i <= n,
            a == start.seg.id_spec(),
            holds_seg(sq, a),
            forall|j: int| 0 <= j < i ==> sq[j].id_spec() != a,
        decreases n - i,
    {
        i = i + 1;
    }
    proof {
        lemma_find_seg(sq, 0, i as nat, a);
    }
    let mut points: Vec<PathPoint<P>> = Vec::new();
    append_all_points(&mut points, first_piece);
    assert(points@ =~= first_piece.pts());
    let done = segs[i].start_id() == b;
    let ghost p0 = points@;
    let ghost s = i;
    let mut j: usize = i + 1;
    if !done {
        let mut stop = false;
        while j < n && !stop
            invariant
                n == sq.len(),
                sq == segs@,
                s < n,
                s + 1 <= j <= n,
                b == end.seg.id_spec(),
                p0.len() >= 2,
                points@.len() >= 2,
                forall|k: int| s + 1 <= k < j && !(stop && k == j - 1) ==> sq[k].id_spec() != b,
                !stop && P::obeys_eq_spec() ==> points@ == join_segs(p0, sq.subrange(s + 1, j as int)),
                stop ==> j > s + 1 && sq[j - 1].id_spec() == b,
                stop && P::obeys_eq_spec() ==> points@ == join_points(
                    join_segs(p0, sq.subrange(s + 1, j - 1)),
                    end_piece.pts(),
                ),
            decreases n - j + (if stop { 0int } else { 1int }),
        {
            let seg = segs[j];
            if seg.start_id() != b {
                append_all_points(&mut points, seg);
                j = j + 1;
                assert(sq.subrange(s + 1, j as int).drop_last() =~= sq.subrange(s + 1, j - 1));
            } else {
                append_all_points(&mut points, end_piece);
                j = j + 1;
                stop = true;
            }
        }
        proof {
            if stop {
                lemma_find_seg(sq, (s + 1) as nat, (j - 1) as nat, b);
            } else {
                lemma_find_seg(sq, (s + 1) as nat, j as nat, b);
            }
        }
    }
    if !path.closed {
        points.push(cut_point);
    }
    let pts = reparent(&points, new_id);
    let pts = rotate_left_one(&pts);
    proof {
        if path.closed && P::obeys_eq_spec() {
            lemma_second_path_closed_from_old(new_id, sq, a, b, first_piece, end_piece, cut_point);
            let spec_r = second_path_points(new_id, true, sq, a, b, first_piece, end_piece, cut_point);
            assert(pts@ == spec_r);
            assert forall|k: int| 0 <= k < pts@.len() implies exists|q: PathPoint<P>|
                drawn_from(q, sq, first_piece, end_piece) && #[trigger] pts@[k] == in_path(q, new_id) by {
                assert(pts@[k] == spec_r[k]);
            }
            if a == b {
                lemma_second_path_closed_one_segment(new_id, sq, a, first_piece, end_piece, cut_point);
            }
        }
    }
    PathParts { id: new_id, points: pts, closed: true }
}

/// Joining points onto `dest` keeps `dest` as it is, at the front.
pub proof fn lemma_join_points_prefix<P: PartialEq>(dest: Seq<PathPoint<P>>, pts: Seq<PathPoint<P>>)
    ensures
        join_points(dest, pts).len() >= dest.len(),
        forall|i: int| 0 <= i < dest.len() ==> #[trigger] join_points(dest, pts)[i] == dest[i],
{
}

/// Joining segments onto `acc` keeps `acc` as it is, at the front.
pub proof fn lemma_join_segs_prefix<P: PartialEq>(acc: Seq<PathPoint<P>>, segs: Seq<PathSeg<P>>)
    ensures
        join_segs(acc, segs).len() >= acc.len(),
        forall|i: int| 0 <= i < acc.len() ==> #[trigger] join_segs(acc, segs)[i] == acc[i],
    decreases segs.len(),
{
    if segs.len() > 0 {
        lemma_join_segs_prefix(acc, segs.drop_last());
        lemma_join_points_prefix(join_segs(acc, segs.drop_last()), segs.last().pts());
    }
}

/// The points of some segments, joined from nothing, begin with the first point of
/// the first segment, and there are at least two of them.
pub proof fn lemma_join_segs_first<P: PartialEq>(segs: Seq<PathSeg<P>>)
    requires
        segs.len() > 0,
    ensures
        join_segs(seq![], segs).len() >= 2,
        join_segs(seq![], segs)[0] == segs[0].pts()[0],
    decreases segs.len(),
{
    if segs.len() == 1 {
        assert(segs.drop_last().len() == 0);
        assert(join_segs(seq![], segs.drop_last()) == Seq::<PathPoint<P>>::empty());
        assert(segs.last() == segs[0]);
        assert(join_segs(seq![], segs) =~= segs[0].pts());
    } else {
        lemma_join_segs_first(segs.drop_last());
        lemma_join_points_prefix(join_segs(seq![], segs.drop_last()), segs.last().pts());
    }
}

/// A search from `from` finds nothing before `from`.
pub proof fn lemma_find_seg_bounds<P>(segs: Seq<PathSeg<P>>, from: nat, id: EntityId)
    requires
        from <= segs.len(),
    ensures
        from <= find_seg(segs, from, id) <= segs.len(),
    decreases segs.len() - from,
{
    if from < segs.len() && segs[from as int].id_spec() != id {
        lemma_find_seg_bounds(segs, from + 1, id);
    }
}

/// The first path of a cut holds the path's start point, the first point of its
/// first segment (moved into the path): where the first cut falls in another
/// segment, and where it falls in the first one and the piece kept of that segment
/// begins at that point, as a piece cut from the segment's start does.
pub proof fn lemma_first_path_keeps_start<P: PartialEq>(
    path_id: usize,
    closed: bool,
    segs: Seq<PathSeg<P>>,
    a: EntityId,
    b: EntityId,
    head: PathSeg<P>,
    tail: PathSeg<P>,
)
    requires
        segs.len() > 0,
        segs[0].id_spec() != a || head.pts()[0] == segs[0].pts()[0],
    ensures
        ({
            let pts = first_path_points(path_id, closed, segs, a, b, head, tail);
            let p0 = segs[0].pts()[0];
            exists|k: int|
                0 <= k < pts.len() && #[trigger] pts[k] == (PathPoint {
                    id: EntityId { parent: path_id, idx: p0.id.idx },
                    point: p0.point,
                    typ: p0.typ,
                })
        }),
{
    let raw = first_path_raw(segs, a, b, head, tail);
    let s = find_seg(segs, 0, a);
    lemma_find_seg_bounds(segs, 1, a);
    if s == 0 {
        let front = segs.subrange(0, 0);
        assert(front.len() == 0);
        assert(join_segs(seq![], front) == Seq::<PathPoint<P>>::empty());
        let before = join_points(join_segs(seq![], front), head.pts());
        assert(before == head.pts());
        let e = find_seg(segs, s, b);
        if e < segs.len() {
            let mid = join_points(before, tail.pts());
            lemma_join_points_prefix(before, tail.pts());
            lemma_join_segs_prefix(mid, segs.subrange((e + 1) as int, segs.len() as int));
        }
    } else if s >= segs.len() {
        lemma_join_segs_first(segs);
    } else {
        let front = segs.subrange(0, s as int);
        assert(front[0] == segs[0]);
        lemma_join_segs_first(front);
        let before = join_points(join_segs(seq![], front), head.pts());
        lemma_join_points_prefix(join_segs(seq![], front), head.pts());
        let e = find_seg(segs, s, b);
        if e < segs.len() {
            let mid = join_points(before, tail.pts());
            lemma_join_points_prefix(before, tail.pts());
            lemma_join_segs_prefix(mid, segs.subrange((e + 1) as int, segs.len() as int));
        }
    }
    assert(raw.len() >= 2 && raw[0] == segs[0].pts()[0]);
    let moved = with_parent(raw, path_id);
    let kept = drop_closing(moved);
    assert(kept.len() >= 1 && kept[0] == moved[0]);
    let p0 = segs[0].pts()[0];
    let want = PathPoint { id: EntityId { parent: path_id, idx: p0.id.idx }, point: p0.point, typ: p0.typ };
    assert(moved[0] == want);
    let pts = first_path_points(path_id, closed, segs, a, b, head, tail);
    if closed {
        assert(pts[pts.len() - 1] == want);
    } else {
        assert(pts[0] == want);
    }
}

/// Two cut points come out in the same order whichever of them is met first along
/// the knife's line: the order depends on the path alone, where the two lie on
/// different segments or on one segment at parameters of which exactly one is the
/// smaller.
pub proof fn lemma_order_ignores_direction<P, T: PartialOrd>(segs: Seq<PathSeg<P>>, h1: Hit<P, T>, h2: Hit<P, T>)
    requires
        holds_either(segs, h1.seg.id_spec(), h2.seg.id_spec()),
        h1.seg.id_spec() == h2.seg.id_spec() ==> ((h1.segment_t.partial_cmp_spec(&h2.segment_t) == Some(
            std::cmp::Ordering::Less,
        )) != (h2.segment_t.partial_cmp_spec(&h1.segment_t) == Some(std::cmp::Ordering::Less))),
    ensures
        ordered_spec(segs, h1, h2) == ordered_spec(segs, h2, h1),
{
    let a = h1.seg.id_spec();
    let b = h2.seg.id_spec();
    if a != b {
        lemma_precedes_one_way(segs, a, b, 0);
    }
}

/// Of two different ids that some segment has, exactly one comes first.
proof fn lemma_precedes_one_way<P>(segs: Seq<PathSeg<P>>, a: EntityId, b: EntityId, k: int)
    requires
        a != b,
        0 <= k <= segs.len(),
        forall|j: int| 0 <= j < k ==> segs[j].id_spec() != a && segs[j].id_spec() != b,
        exists|i: int| k <= i < segs.len() && (#[trigger] segs[i].id_spec() == a || segs[i].id_spec() == b),
    ensures
        precedes(segs, a, b) != precedes(segs, b, a),
    decreases segs.len() - k,
{
    if segs[k].id_spec() == a {
        assert(precedes(segs, a, b));
        if precedes(segs, b, a) {
            let m = choose|m: int|
                0 <= m < segs.len() && #[trigger] segs[m].id_spec() == b && forall|j: int|
                    0 <= j < m ==> segs[j].id_spec() != a;
            if m > k {
                assert(segs[k].id_spec() == a);
            }
        }
    } else if segs[k].id_spec() == b {
        assert(precedes(segs, b, a));
        if precedes(segs, a, b) {
            let m = choose|m: int|
                0 <= m < segs.len() && #[trigger] segs[m].id_spec() == a && forall|j: int|
                    0 <= j < m ==> segs[j].id_spec() != b;
            if m > k {
                assert(segs[k].id_spec() == b);
            }
        }
    } else {
        lemma_precedes_one_way(segs, a, b, k + 1);
    }
}

/// No point of `pts` has the index `idx`.
pub open spec fn no_idx<P>(pts: Seq<PathPoint<P>>, idx: usize) -> bool {
    forall|k: int| 0 <= k < pts.len() ==> (#[trigger] pts[k]).id.idx != idx
}

/// Joining brings in no point that neither side had.
pub proof fn lemma_join_points_no_idx<P: PartialEq>(dest: Seq<PathPoint<P>>, pts: Seq<PathPoint<P>>, idx: usize)
    requires
        no_idx(dest, idx),
        no_idx(pts, idx),
    ensures
        no_idx(join_points(dest, pts), idx),
{
    let r = join_points(dest, pts);
    assert forall|k: int| 0 <= k < r.len() implies (#[trigger] r[k]).id.idx != idx by {
        if k >= dest.len() && continues(dest, pts) {
            assert(r[k] == pts[k - dest.len() + 1]);
        }
    }
}

/// Joining segments brings in no point that neither `acc` nor a segment had.
pub proof fn lemma_join_segs_no_idx<P: PartialEq>(acc: Seq<PathPoint<P>>, segs: Seq<PathSeg<P>>, idx: usize)
    requires
        no_idx(acc, idx),
        forall|i: int| 0 <= i < segs.len() ==> no_idx(#[trigger] segs[i].pts(), idx),
    ensures
        no_idx(join_segs(acc, segs), idx),
    decreases segs.len(),
{
    if segs.len() > 0 {
        let front = segs.drop_last();
        assert forall|i: int| 0 <= i < front.len() implies no_idx(#[trigger] front[i].pts(), idx) by {
            assert(front[i] == segs[i]);
        }
        lemma_join_segs_no_idx(acc, front, idx);
        assert(no_idx(segs[segs.len() - 1].pts(), idx));
        lemma_join_points_no_idx(join_segs(acc, front), segs.last().pts(), idx);
    }
}

/// A search from `from` finds a segment with id `id` where one lies at `from` or after.
pub proof fn lemma_find_seg_found<P>(segs: Seq<PathSeg<P>>, from: nat, id: EntityId, i: int)
    requires
        from <= i < segs.len(),
        segs[i].id_spec() == id,
    ensures
        find_seg(segs, from, id) <= i,
    decreases i - from,
{
    if segs[from as int].id_spec() != id {
        lemma_find_seg_found(segs, from + 1, id, i);
    }
}

/// The second path of a cut does not hold the old path's start point, the first
/// point of its first segment: where the second cut point lies on the path at or
/// after the first, only the first and the last segment touch the start point, and
/// the pieces of the cut segments and the closing point are other points.
pub proof fn lemma_second_path_omits_start<P: PartialEq>(
    new_id: usize,
    closed: bool,
    segs: Seq<PathSeg<P>>,
    a: EntityId,
    b: EntityId,
    first_piece: PathSeg<P>,
    end_piece: PathSeg<P>,
    cut_point: PathPoint<P>,
)
    requires
        holds_seg(segs, a),
        segs[find_seg(segs, 0, a) as int].id_spec() == b || find_seg(segs, find_seg(segs, 0, a) + 1, b) < segs.len(),
        forall|i: int| 0 < i < segs.len() - 1 ==> no_idx(#[trigger] segs[i].pts(), segs[0].pts()[0].id.idx),
        no_idx(first_piece.pts(), segs[0].pts()[0].id.idx),
        no_idx(end_piece.pts(), segs[0].pts()[0].id.idx),
        cut_point.id.idx != segs[0].pts()[0].id.idx,
    ensures
        no_idx(
            second_path_points(new_id, closed, segs, a, b, first_piece, end_piece, cut_point),
            segs[0].pts()[0].id.idx,
        ),
{
    let idx = segs[0].pts()[0].id.idx;
    let n = segs.len();
    let i = choose|i: int| 0 <= i < segs.len() && #[trigger] segs[i].id_spec() == a;
    lemma_find_seg_found(segs, 0, a, i);
    let s = find_seg(segs, 0, a);
    let body = second_path_body(segs, a, b, first_piece, end_piece);
    if segs[s as int].id_spec() != b {
        let e = find_seg(segs, s + 1, b);
        lemma_find_seg_bounds(segs, s + 1, b);
        let mid = segs.subrange((s + 1) as int, e as int);
        assert forall|k: int| 0 <= k < mid.len() implies no_idx(#[trigger] mid[k].pts(), idx) by {
            assert(mid[k] == segs[s + 1 + k]);
        }
        lemma_join_segs_no_idx(first_piece.pts(), mid, idx);
        lemma_join_points_no_idx(join_segs(first_piece.pts(), mid), end_piece.pts(), idx);
    }
    assert(no_idx(body, idx));
    let raw = second_path_raw(segs, closed, a, b, first_piece, end_piece, cut_point);
    assert(no_idx(raw, idx));
    let moved = with_parent(raw, new_id);
    assert(no_idx(moved, idx));
    let r = second_path_points(new_id, closed, segs, a, b, first_piece, end_piece, cut_point);
    assert forall|k: int| 0 <= k < r.len() implies (#[trigger] r[k]).id.idx != idx by {
        if k < r.len() - 1 {
            assert(r[k] == moved[k + 1]);
        } else {
            assert(r[k] == moved[0]);
        }
    }
}

/// `next` begins where `prev` ends.
pub open spec fn joins_onto<P: PartialEq>(prev: PathSeg<P>, next: PathSeg<P>) -> bool {
    prev.pts().last().point.eq_spec(&next.pts()[0].point)
}

/// Each segment begins where the one before it ends.
pub open spec fn meets<P: PartialEq>(segs: Seq<PathSeg<P>>) -> bool {
    forall|i: int| #![trigger segs[i]] 0 <= i < segs.len() - 1 ==> joins_onto(segs[i], segs[i + 1])
}

/// Joining segments that meet end to end keeps each meeting point once, the copy
/// of the earlier segment.
#[verifier::spinoff_prover]
pub proof fn lemma_join_segs_chain<P: PartialEq>(segs: Seq<PathSeg<P>>)
    requires
        meets(segs),
    ensures
        join_segs(seq![], segs) == chain_points(segs),
    decreases segs.len(),
{
    if segs.len() == 1 {
        assert(segs.drop_last().len() == 0);
        assert(join_segs(seq![], segs.drop_last()) == Seq::<PathPoint<P>>::empty());
        assert(join_segs(seq![], segs) =~= segs[0].pts());
    } else if segs.len() > 1 {
        let front = segs.drop_last();
        let last = segs.last();
        assert(meets(front)) by {
            assert forall|i: int| #![trigger front[i]] 0 <= i < front.len() - 1 implies joins_onto(front[i], front[i + 1]) by {
                assert(front[i] == segs[i] && front[i + 1] == segs[i + 1]);
            }
        }
        lemma_join_segs_chain(front);
        lemma_chain_last(front);
        let j = segs.len() - 2;
        assert(front.last() == segs[j]);
        assert(segs[j + 1] == last);
        assert(joins_onto(segs[j], segs[j + 1]));
        assert(continues(chain_points(front), last.pts()));
        assert(join_segs(seq![], segs) == join_points(join_segs(seq![], front), last.pts()));
        assert(chain_points(segs) == chain_points(front) + last.pts().drop_first());
    }
}

/// A run of `append_all_points` calls from an empty list, one per segment, where
/// each segment begins where the one before ends: `states[i]` is the list before
/// the call with `segs[i]`, each call joins as `append_all_points` states for a
/// position type whose `==` follows its specification, and the list at the end
/// holds each meeting point once, the copy of the earlier segment.
pub proof fn lemma_append_chain<P: PartialEq>(segs: Seq<PathSeg<P>>, states: Seq<Seq<PathPoint<P>>>)
    requires
        states.len() == segs.len() + 1,
        states[0] == Seq::<PathPoint<P>>::empty(),
        forall|i: int| 0 <= i < segs.len() ==> #[trigger] states[i + 1] == join_points(states[i], segs[i].pts()),
        meets(segs),
    ensures
        states[segs.len() as int] == chain_points(segs),
{
    lemma_states_join(segs, states, segs.len() as int);
    assert(segs.subrange(0, segs.len() as int) =~= segs);
    lemma_join_segs_chain(segs);
}

/// The list after the first `k` calls of such a run holds the first `k` segments joined.
proof fn lemma_states_join<P: PartialEq>(segs: Seq<PathSeg<P>>, states: Seq<Seq<PathPoint<P>>>, k: int)
    requires
        0 <= k <= segs.len(),
        states.len() == segs.len() + 1,
        states[0] == Seq::<PathPoint<P>>::empty(),
        forall|i: int| 0 <= i < segs.len() ==> #[trigger] states[i + 1] == join_points(states[i], segs[i].pts()),
    ensures
        states[k] == join_segs(seq![], segs.subrange(0, k)),
    decreases k,
{
    if k == 0 {
        assert(segs.subrange(0, 0).len() == 0);
    } else {
        lemma_states_join(segs, states, k - 1);
        assert(segs.subrange(0, k).drop_last() =~= segs.subrange(0, k - 1));
        assert(states[(k - 1) + 1] == join_points(states[k - 1], segs[k - 1].pts()));
    }
}

/// Two cut points come out in the same order whichever of them is met first along
/// the knife's line, where they lie on different segments, or on one segment at
/// parameters that differ and compare (so not where one is a NaN), for a parameter
/// type whose comparison keeps the laws of a partial order.
pub proof fn lemma_order_same_both_ways<P, T: PartialOrd>(segs: Seq<PathSeg<P>>, h1: Hit<P, T>, h2: Hit<P, T>)
    requires
        holds_either(segs, h1.seg.id_spec(), h2.seg.id_spec()),
        h1.seg.id_spec() == h2.seg.id_spec() ==> obeys_partial_cmp_spec_properties::<T>(),
        h1.seg.id_spec() == h2.seg.id_spec() ==> (h1.segment_t.partial_cmp_spec(&h2.segment_t) == Some(
            std::cmp::Ordering::Less,
        ) || h1.segment_t.partial_cmp_spec(&h2.segment_t) == Some(std::cmp::Ordering::Greater)),
    ensures
        ordered_spec(segs, h1, h2) == ordered_spec(segs, h2, h1),
{
    if h1.seg.id_spec() == h2.seg.id_spec() {
        reveal(obeys_partial_cmp_spec_properties);
        let x = h1.segment_t;
        let y = h2.segment_t;
        assert(x.partial_cmp_spec(&y) == Some(std::cmp::Ordering::Less) <==> y.partial_cmp_spec(&x) == Some(
            std::cmp::Ordering::Greater,
        ));
        assert(y.partial_cmp_spec(&x) == Some(std::cmp::Ordering::Less) <==> x.partial_cmp_spec(&y) == Some(
            std::cmp::Ordering::Greater,
        ));
    }
    lemma_order_ignores_direction(segs, h1, h2);
}

/// `a` comes before `b` along the knife's line.
pub open spec fn line_before<P, T: PartialOrd>(a: Hit<P, T>, b: Hit<P, T>) -> bool {
    a.line_t.partial_cmp_spec(&b.line_t) == Some(std::cmp::Ordering::Less)
}

/// The line parameters of `hits` are totally ordered: the parameter type compares
/// as its specification says, keeps the laws of an order, its equality is equality
/// of values, and any two of these parameters compare (no NaN among them).
pub open spec fn line_order_total<P, T: PartialOrd>(hits: Seq<Hit<P, T>>) -> bool {
    &&& T::obeys_partial_cmp_spec()
    &&& obeys_partial_cmp_spec_properties::<T>()
    &&& obeys_concrete_eq::<T>()
    &&& forall|i: int, j: int|
        0 <= i < hits.len() && 0 <= j < hits.len() ==> (#[trigger] hits[i].line_t.partial_cmp_spec(&hits[j].line_t)) is Some
}

/// `hits[i]` is, leaving out `hits[skip]`, the first hit along the line, and the
/// earliest of the hits that share its place: where the hits are sorted by their
/// line parameter, keeping the order of equal ones, it comes first.
pub open spec fn first_on_line<P, T: PartialOrd>(hits: Seq<Hit<P, T>>, i: int, skip: int) -> bool {
    &&& 0 <= i < hits.len()
    &&& i != skip
    &&& forall|k: int| 0 <= k < hits.len() && k != skip ==> !line_before(#[trigger] hits[k], hits[i])
    &&& forall|k: int| 0 <= k < i && k != skip ==> line_before(hits[i], #[trigger] hits[k])
}

/// No hit comes before itself.
proof fn lemma_not_before_self<P, T: PartialOrd>(h: Hit<P, T>)
    requires
        obeys_partial_cmp_spec_properties::<T>(),
    ensures
        !line_before(h, h),
{
    reveal(obeys_partial_cmp_spec_properties);
    let x = h.line_t;
    assert(x.partial_cmp_spec(&x) == Some(std::cmp::Ordering::Less) <==> x.partial_cmp_spec(&x) == Some(
        std::cmp::Ordering::Greater,
    ));
}

/// A scan for the first hit along the line that meets a hit before its best so far
/// moves to that hit and keeps what it knows.
proof fn lemma_scan_moves<P, T: PartialOrd>(hits: Seq<Hit<P, T>>, skip: int, best: int, k: int)
    requires
        line_order_total(hits),
        0 <= best < k < hits.len(),
        best != skip,
        k != skip,
        forall|m: int| 0 <= m < k && m != skip ==> !line_before(#[trigger] hits[m], hits[best]),
        forall|m: int| 0 <= m < best && m != skip ==> line_before(hits[best], #[trigger] hits[m]),
        line_before(hits[k], hits[best]),
    ensures
        forall|m: int| 0 <= m <= k && m != skip ==> !line_before(#[trigger] hits[m], hits[k]),
        forall|m: int| 0 <= m < k && m != skip ==> line_before(hits[k], #[trigger] hits[m]),
{
    reveal(obeys_partial_cmp_spec_properties);
    reveal(obeys_concrete_eq);
    let xk = hits[k].line_t;
    let xb = hits[best].line_t;
    assert forall|m: int| 0 <= m <= k && m != skip implies !line_before(#[trigger] hits[m], hits[k]) by {
        let xm = hits[m].line_t;
        if xm.partial_cmp_spec(&xk) == Some(std::cmp::Ordering::Less) {
            assert(xm.partial_cmp_spec(&xb) == Some(std::cmp::Ordering::Less));
        }
    }
    assert forall|m: int| 0 <= m < k && m != skip implies line_before(hits[k], #[trigger] hits[m]) by {
        let xm = hits[m].line_t;
        if m < best {
            assert(xb.partial_cmp_spec(&xm) == Some(std::cmp::Ordering::Less));
            assert(xk.partial_cmp_spec(&xm) == Some(std::cmp::Ordering::Less));
        } else if m > best {
            assert(!(xm.partial_cmp_spec(&xb) == Some(std::cmp::Ordering::Less)));
            assert(xm.partial_cmp_spec(&xb) is Some);
            if xm.partial_cmp_spec(&xb) == Some(std::cmp::Ordering::Greater) {
                assert(xb.partial_cmp_spec(&xm) == Some(std::cmp::Ordering::Less));
                assert(xk.partial_cmp_spec(&xm) == Some(std::cmp::Ordering::Less));
            } else {
                assert(xm.partial_cmp_spec(&xb) == Some(std::cmp::Ordering::Equal));
                assert(xm.eq_spec(&xb));
                assert(xm == xb);
            }
        }
    }
}

/// The index of the first hit along the line, leaving out `skip`.
fn first_hit_index<P, T: PartialOrd>(hits: &Vec<Hit<P, T>>, skip: Option<usize>, Ghost(sk): Ghost<int>) -> (r: usize)
    requires
        hits@.len() >= 2,
        sk == (match skip {
            Some(x) => x as int,
            None => -1,
        }),
    ensures
        r < hits@.len(),
        r != sk,
        line_order_total(hits@) ==> first_on_line(hits@, r as int, sk),
{
    let n = hits.len();
    let mut best: usize = if skip == Some(0usize) {
        1
    } else {
        0
    };
    let mut k: usize = best + 1;
    proof {
        if line_order_total(hits@) {
            lemma_not_before_self(hits@[best as int]);
        }
    }
    while k < n
        invariant
            n == hits@.len(),
            n >= 2,
            0 <= best < k <= n,
            best != sk,
            sk == (match skip {
                Some(x) => x as int,
                None => -1,
            }),
            line_order_total(hits@) ==> forall|m: int|
                0 <= m < k && m != sk ==> !line_before(#[trigger] hits@[m], hits@[best as int]),
            line_order_total(hits@) ==> forall|m: int|
                0 <= m < best && m != sk ==> line_before(hits@[best as int], #[trigger] hits@[m]),
        decreases n - k,
    {
        if skip != Some(k) {
            if hits[k].line_t < hits[best].line_t {
                proof {
                    if line_order_total(hits@) {
                        lemma_scan_moves(hits@, sk, best as int, k as int);
                    }
                }
                best = k;
            }
        }
        k = k + 1;
    }
    best
}

/// The first two hits along the knife's line: where the hits are sorted by their
/// line parameter, keeping the order of equal ones, the two that come first.
pub fn first_two_hits<P, T: PartialOrd>(hits: &Vec<Hit<P, T>>) -> (r: (usize, usize))
    requires
        hits@.len() >= 2,
    ensures
        r.0 < hits@.len(),
        r.1 < hits@.len(),
        r.0 != r.1,
        line_order_total(hits@) ==> first_on_line(hits@, r.0 as int, -1) && first_on_line(hits@, r.1 as int, r.0 as int),
{
    let i = first_hit_index(hits, None, Ghost(-1));
    let j = first_hit_index(hits, Some(i), Ghost(i as int));
    (i, j)
}

/// No two segments share an id, as in any path, whose points all differ.
pub open spec fn distinct_ids<P>(segs: Seq<PathSeg<P>>) -> bool {
    forall|p: int, q: int| 0 <= p < q < segs.len() ==> #[trigger] segs[p].id_spec() != #[trigger] segs[q].id_spec()
}

/// Where two cut points lie on different segments of a path, at indices `i` and
/// `j`, the one on the segment that comes first in the path comes first.
pub proof fn lemma_order_by_index<P, T: PartialOrd>(segs: Seq<PathSeg<P>>, start: Hit<P, T>, end: Hit<P, T>, i: int, j: int)
    requires
        distinct_ids(segs),
        0 <= i < segs.len(),
        0 <= j < segs.len(),
        i != j,
        segs[i].id_spec() == start.seg.id_spec(),
        segs[j].id_spec() == end.seg.id_spec(),
    ensures
        start.seg.id_spec() != end.seg.id_spec(),
        ordered_spec(segs, start, end) == (if i < j {
            (start, end)
        } else {
            (end, start)
        }),
{
    let a = start.seg.id_spec();
    let b = end.seg.id_spec();
    if i < j {
        assert(segs[i].id_spec() != segs[j].id_spec());
        assert(forall|k: int| 0 <= k < i ==> segs[k].id_spec() != b) by {
            assert forall|k: int| 0 <= k < i implies segs[k].id_spec() != b by {
                assert(segs[k].id_spec() != segs[j].id_spec());
            }
        }
        assert(precedes(segs, a, b));
    } else {
        assert(segs[j].id_spec() != segs[i].id_spec());
        assert(forall|k: int| 0 <= k < j ==> segs[k].id_spec() != a) by {
            assert forall|k: int| 0 <= k < j implies segs[k].id_spec() != a by {
                assert(segs[k].id_spec() != segs[i].id_spec());
            }
        }
        assert(precedes(segs, b, a));
        lemma_precedes_one_way(segs, a, b, 0);
    }
}

/// `lemma_order_by_index` for every pair of indices.
proof fn lemma_order_index_all<P, T: PartialOrd>(segs: Seq<PathSeg<P>>, start: Hit<P, T>, end: Hit<P, T>)
    ensures
        forall|i: int, j: int|
            0 <= i < segs.len() && 0 <= j < segs.len() && i != j && distinct_ids(segs) && #[trigger] segs[i].id_spec()
                == start.seg.id_spec() && #[trigger] segs[j].id_spec() == end.seg.id_spec() ==> ordered_spec(segs, start, end) == (if i < j {
                (start, end)
            } else {
                (end, start)
            }),
{
    assert forall|i: int, j: int|
        0 <= i < segs.len() && 0 <= j < segs.len() && i != j && distinct_ids(segs) && #[trigger] segs[i].id_spec()
            == start.seg.id_spec() && #[trigger] segs[j].id_spec() == end.seg.id_spec() implies ordered_spec(segs, start, end) == (if i < j {
            (start, end)
        } else {
            (end, start)
        }) by {
        lemma_order_by_index(segs, start, end, i, j);
    }
}

/// `p` moved into the path `parent`: the same point, index, position and kind.
pub open spec fn in_path<P>(p: PathPoint<P>, parent: usize) -> PathPoint<P> {
    PathPoint { id: EntityId { parent: parent, idx: p.id.idx }, point: p.point, typ: p.typ }
}

/// Every point of `s` meets `src`.
pub open spec fn all_from<P>(s: Seq<PathPoint<P>>, src: spec_fn(PathPoint<P>) -> bool) -> bool {
    forall|k: int| 0 <= k < s.len() ==> src(#[trigger] s[k])
}

/// Joining takes points only from the two sides.
pub proof fn lemma_join_points_from<P: PartialEq>(
    dest: Seq<PathPoint<P>>,
    pts: Seq<PathPoint<P>>,
    src: spec_fn(PathPoint<P>) -> bool,
)
    requires
        all_from(dest, src),
        all_from(pts, src),
    ensures
        all_from(join_points(dest, pts), src),
{
    let r = join_points(dest, pts);
    assert forall|k: int| 0 <= k < r.len() implies src(#[trigger] r[k]) by {
        if k >= dest.len() {
            if continues(dest, pts) {
                assert(r[k] == pts[k - dest.len() + 1]);
            } else {
                assert(r[k] == pts[k - dest.len()]);
            }
        }
    }
}

/// Joining segments takes points only from `acc` and the segments.
pub proof fn lemma_join_segs_from<P: PartialEq>(
    acc: Seq<PathPoint<P>>,
    segs: Seq<PathSeg<P>>,
    src: spec_fn(PathPoint<P>) -> bool,
)
    requires
        all_from(acc, src),
        forall|i: int| 0 <= i < segs.len() ==> all_from(#[trigger] segs[i].pts(), src),
    ensures
        all_from(join_segs(acc, segs), src),
    decreases segs.len(),
{
    if segs.len() > 0 {
        let front = segs.drop_last();
        assert forall|i: int| 0 <= i < front.len() implies all_from(#[trigger] front[i].pts(), src) by {
            assert(front[i] == segs[i]);
        }
        lemma_join_segs_from(acc, front, src);
        assert(all_from(segs[segs.len() - 1].pts(), src));
        lemma_join_points_from(join_segs(acc, front), segs.last().pts(), src);
    }
}

/// `x` is a point of the piece `first_piece`, of the piece `end_piece`, or of one of
/// the segments.
pub open spec fn drawn_from<P>(x: PathPoint<P>, segs: Seq<PathSeg<P>>, first_piece: PathSeg<P>, end_piece: PathSeg<P>) -> bool {
    ||| first_piece.pts().contains(x)
    ||| end_piece.pts().contains(x)
    ||| exists|i: int| 0 <= i < segs.len() && (#[trigger] segs[i].pts()).contains(x)
}

/// The second path of a cut in a closed path takes every point from the old path's
/// segments or the cut pieces, moved into the new path: nothing is added along the
/// cut.
pub proof fn lemma_second_path_closed_from_old<P: PartialEq>(
    new_id: usize,
    segs: Seq<PathSeg<P>>,
    a: EntityId,
    b: EntityId,
    first_piece: PathSeg<P>,
    end_piece: PathSeg<P>,
    cut_point: PathPoint<P>,
)
    requires
        holds_seg(segs, a),
    ensures
        ({
            let r = second_path_points(new_id, true, segs, a, b, first_piece, end_piece, cut_point);
            forall|k: int|
                0 <= k < r.len() ==> exists|q: PathPoint<P>|
                    drawn_from(q, segs, first_piece, end_piece) && #[trigger] r[k] == in_path(q, new_id)
        }),
{
    let src = |x: PathPoint<P>| drawn_from(x, segs, first_piece, end_piece);
    let i0 = choose|i: int| 0 <= i < segs.len() && #[trigger] segs[i].id_spec() == a;
    lemma_find_seg_found(segs, 0, a, i0);
    let s = find_seg(segs, 0, a);
    assert(all_from(first_piece.pts(), src)) by {
        assert forall|k: int| 0 <= k < first_piece.pts().len() implies src(#[trigger] first_piece.pts()[k]) by {
            assert(first_piece.pts().contains(first_piece.pts()[k]));
        }
    }
    assert(all_from(end_piece.pts(), src)) by {
        assert forall|k: int| 0 <= k < end_piece.pts().len() implies src(#[trigger] end_piece.pts()[k]) by {
            assert(end_piece.pts().contains(end_piece.pts()[k]));
        }
    }
    if segs[s as int].id_spec() != b {
        let e = find_seg(segs, s + 1, b);
        lemma_find_seg_bounds(segs, s + 1, b);
        let mid = if e >= segs.len() {
            segs.subrange((s + 1) as int, segs.len() as int)
        } else {
            segs.subrange((s + 1) as int, e as int)
        };
        assert forall|i: int| 0 <= i < mid.len() implies all_from(#[trigger] mid[i].pts(), src) by {
            let j = s + 1 + i;
            assert(mid[i] == segs[j]);
            assert forall|k: int| 0 <= k < mid[i].pts().len() implies src(#[trigger] mid[i].pts()[k]) by {
                assert(segs[j].pts().contains(mid[i].pts()[k]));
            }
        }
        lemma_join_segs_from(first_piece.pts(), mid, src);
        if e < segs.len() {
            lemma_join_points_from(join_segs(first_piece.pts(), mid), end_piece.pts(), src);
        }
    }
    let raw = second_path_raw(segs, true, a, b, first_piece, end_piece, cut_point);
    assert(all_from(raw, src));
    let moved = with_parent(raw, new_id);
    let r = second_path_points(new_id, true, segs, a, b, first_piece, end_piece, cut_point);
    assert forall|k: int| 0 <= k < r.len() implies exists|q: PathPoint<P>|
        drawn_from(q, segs, first_piece, end_piece) && #[trigger] r[k] == in_path(q, new_id) by {
        let m = if k < r.len() - 1 {
            k + 1
        } else {
            0
        };
        assert(r[k] == moved[m]);
        assert(src(raw[m]));
        assert(moved[m] == in_path(raw[m], new_id));
    }
}

/// Where both cuts of a closed path lie on one segment, the second path is exactly
/// the piece of that segment between the cuts, moved into the new path with its
/// first point last: no other point, and no point along the cut.
pub proof fn lemma_second_path_closed_one_segment<P: PartialEq>(
    new_id: usize,
    segs: Seq<PathSeg<P>>,
    a: EntityId,
    first_piece: PathSeg<P>,
    end_piece: PathSeg<P>,
    cut_point: PathPoint<P>,
)
    requires
        holds_seg(segs, a),
    ensures
        ({
            let r = second_path_points(new_id, true, segs, a, a, first_piece, end_piece, cut_point);
            let f = first_piece.pts();
            &&& r.len() == f.len()
            &&& r[r.len() - 1] == in_path(f[0], new_id)
            &&& forall|k: int| 0 <= k < r.len() - 1 ==> #[trigger] r[k] == in_path(f[k + 1], new_id)
        }),
{
    let i0 = choose|i: int| 0 <= i < segs.len() && #[trigger] segs[i].id_spec() == a;
    lemma_find_seg_found(segs, 0, a, i0);
    lemma_find_seg_bounds(segs, 0, a);
    let s = find_seg(segs, 0, a);
    assert(s == segs.len() || segs[s as int].id_spec() == a) by {
        lemma_find_seg_is_match(segs, 0, a);
    }
    let f = first_piece.pts();
    assert(second_path_raw(segs, true, a, a, first_piece, end_piece, cut_point) == f);
}

/// A search ends at the end or at a segment with the id it looks for.
pub proof fn lemma_find_seg_is_match<P>(segs: Seq<PathSeg<P>>, from: nat, id: EntityId)
    ensures
        find_seg(segs, from, id) >= segs.len() || segs[find_seg(segs, from, id) as int].id_spec() == id,
    decreases segs.len() - from,
{
    if from < segs.len() && segs[from as int].id_spec() != id {
        lemma_find_seg_is_match(segs, from + 1, id);
    }
}

/// Joining a piece of two points or more ends with the piece's last point.
pub proof fn lemma_join_points_last<P: PartialEq>(dest: Seq<PathPoint<P>>, pts: Seq<PathPoint<P>>)
    requires
        pts.len() >= 2,
    ensures
        join_points(dest, pts).len() > dest.len(),
        join_points(dest, pts).last() == pts.last(),
{
}

/// Joining segments ends with the last point of the last segment.
pub proof fn lemma_join_segs_last<P: PartialEq>(acc: Seq<PathPoint<P>>, segs: Seq<PathSeg<P>>)
    requires
        segs.len() > 0,
    ensures
        join_segs(acc, segs).len() > 0,
        join_segs(acc, segs).last() == segs.last().pts().last(),
{
    lemma_join_points_last(join_segs(acc, segs.drop_last()), segs.last().pts());
}

/// The cuts of the first path keep the old path's ends: the second cut lies at or
/// after the first, a cut in the first segment keeps that segment's start, and a
/// cut in the last segment keeps that segment's end.
pub open spec fn first_cut_keeps_ends<P>(segs: Seq<PathSeg<P>>, a: EntityId, b: EntityId, head: PathSeg<P>, tail: PathSeg<P>) -> bool {
    &&& segs.len() > 0
    &&& segs[0].id_spec() == a ==> head.pts()[0] == segs[0].pts()[0]
    &&& find_seg(segs, 0, a) < segs.len() ==> find_seg(segs, find_seg(segs, 0, a), b) < segs.len()
    &&& find_seg(segs, 0, a) < segs.len() && find_seg(segs, find_seg(segs, 0, a), b) == segs.len() - 1
        ==> tail.pts().last() == segs.last().pts().last()
}

/// The points of the first path of a cut, before the repeated closing point goes,
/// begin with the old path's first point and end with its last, where the second
/// cut lies at or after the first, a cut in the first segment keeps that segment's
/// start, and a cut in the last segment keeps that segment's end.
pub proof fn lemma_first_raw_ends<P: PartialEq>(
    segs: Seq<PathSeg<P>>,
    a: EntityId,
    b: EntityId,
    head: PathSeg<P>,
    tail: PathSeg<P>,
)
    requires
        first_cut_keeps_ends(segs, a, b, head, tail),
    ensures
        ({
            let raw = first_path_raw(segs, a, b, head, tail);
            &&& raw.len() >= 2
            &&& raw[0] == segs[0].pts()[0]
            &&& raw.last() == segs.last().pts().last()
        }),
{
    let raw = first_path_raw(segs, a, b, head, tail);
    let s = find_seg(segs, 0, a);
    lemma_find_seg_bounds(segs, 0, a);
    lemma_find_seg_is_match(segs, 0, a);
    if s >= segs.len() {
        lemma_join_segs_first(segs);
        lemma_join_segs_last(seq![], segs);
    } else {
        let front = segs.subrange(0, s as int);
        if s == 0 {
            assert(front.len() == 0);
            assert(join_segs(seq![], front) == Seq::<PathPoint<P>>::empty());
        } else {
            assert(front[0] == segs[0]);
            lemma_join_segs_first(front);
        }
        let before = join_points(join_segs(seq![], front), head.pts());
        lemma_join_points_prefix(join_segs(seq![], front), head.pts());
        assert(before.len() >= 2 && before[0] == segs[0].pts()[0]);
        let e = find_seg(segs, s, b);
        let mid = join_points(before, tail.pts());
        lemma_join_points_prefix(before, tail.pts());
        lemma_join_points_last(before, tail.pts());
        let rest = segs.subrange((e + 1) as int, segs.len() as int);
        lemma_join_segs_prefix(mid, rest);
        if rest.len() > 0 {
            lemma_join_segs_last(mid, rest);
            assert(rest.last() == segs.last());
        } else {
            assert(join_segs(mid, rest) == mid);
        }
    }
}

/// The first path of a cut in a closed path holds the old start point once: where
/// the old path ends where it begins, the repeated last point goes, whatever
/// segments the two cuts lie on, and the start point moves to the end.
pub proof fn lemma_first_path_closed_drops_repeat<P: PartialEq>(
    path_id: usize,
    segs: Seq<PathSeg<P>>,
    a: EntityId,
    b: EntityId,
    head: PathSeg<P>,
    tail: PathSeg<P>,
)
    requires
        segs.len() > 0,
        segs[0].pts()[0].point.eq_spec(&segs.last().pts().last().point),
        first_cut_keeps_ends(segs, a, b, head, tail),
    ensures
        ({
            let raw = first_path_raw(segs, a, b, head, tail);
            let r = first_path_points(path_id, true, segs, a, b, head, tail);
            &&& r.len() == raw.len() - 1
            &&& r[r.len() - 1] == in_path(segs[0].pts()[0], path_id)
            &&& forall|k: int| 0 <= k < r.len() - 1 ==> #[trigger] r[k] == in_path(raw[k + 1], path_id)
        }),
{
    lemma_first_raw_ends(segs, a, b, head, tail);
    let raw = first_path_raw(segs, a, b, head, tail);
    let moved = with_parent(raw, path_id);
    assert(moved[0].point == raw[0].point);
    assert(moved.last().point == raw.last().point);
    let kept = drop_closing(moved);
    assert(kept == moved.drop_last());
    let r = first_path_points(path_id, true, segs, a, b, head, tail);
    assert forall|k: int| 0 <= k < r.len() - 1 implies #[trigger] r[k] == in_path(raw[k + 1], path_id) by {
        assert(r[k] == kept[k + 1]);
    }
    assert(r[r.len() - 1] == kept[0]);
}

} // verus!
