use vstd::prelude::*;

verus! {

/// The identity of a point: the path it belongs to and its own index.
#[derive(Clone, Copy, Debug, PartialEq, Eq, Structural)]
pub struct EntityId {
    pub parent: usize,
    pub idx: usize,
}

/// Whether a point lies on the curve or is a control point.
#[derive(Clone, Copy, Debug, PartialEq, Eq, Structural)]
pub enum PointType {
    OnCurve,
    OffCurve,
}

/// A point of a path: its identity, its position `P` in design space and its kind.
#[derive(Clone, Copy, Debug, PartialEq)]
pub struct PathPoint<P> {
    pub id: EntityId,
    pub point: P,
    pub typ: PointType,
}

/// One segment of a path, given by the points that make it up.
#[derive(Clone, Copy, Debug, PartialEq)]
pub enum PathSeg<P> {
    Line(PathPoint<P>, PathPoint<P>),
    Cubic(PathPoint<P>, PathPoint<P>, PathPoint<P>, PathPoint<P>),
}

impl<P> PathSeg<P> {
    /// The points of the segment, in order.
    pub open spec fn pts(self) -> Seq<PathPoint<P>> {
        match self {
            PathSeg::Line(a, b) => seq![a, b],
            PathSeg::Cubic(a, b, c, d) => seq![a, b, c, d],
        }
    }

    /// The identity of the segment: the id of its first point.
    pub open spec fn id_spec(self) -> EntityId {
        self.pts()[0].id
    }

    /// The id of the segment's first point, by which the segment is found again.
    pub fn start_id(&self) -> (r: EntityId)
        ensures
            r == self.id_spec(),
    {
        match self {
            PathSeg::Line(a, _) => a.id,
            PathSeg::Cubic(a, _, _, _) => a.id,
        }
    }
}

impl<P: Copy> PathSeg<P> {
    /// The points of the segment, in order.
    pub fn to_points(&self) -> (v: Vec<PathPoint<P>>)
        ensures
            v@ == self.pts(),
    {
        let mut v: Vec<PathPoint<P>> = Vec::new();
        match self {
            PathSeg::Line(a, b) => {
                v.push(*a);
                v.push(*b);
            },
            PathSeg::Cubic(a, b, c, d) => {
                v.push(*a);
                v.push(*b);
                v.push(*c);
                v.push(*d);
            },
        }
        assert(v@ =~= self.pts());
        v
    }
}

/// What a path is made from: its id, its points in order, and whether it is closed.
#[derive(Clone, Debug)]
pub struct PathParts<P> {
    pub id: usize,
    pub points: Vec<PathPoint<P>>,
    pub closed: bool,
}

/// A path given by its segments: its id, its segments in order, and whether it is closed.
#[derive(Clone, Debug)]
pub struct PathSegments<P> {
    pub id: usize,
    pub segs: Vec<PathSeg<P>>,
    pub closed: bool,
}

/// The points in the order the segments walk them: a closed path keeps its start
/// point last, so its walk begins with that point and then takes every point.
pub open spec fn walk<P>(points: Seq<PathPoint<P>>, closed: bool) -> Seq<PathPoint<P>> {
    if closed && points.len() > 0 {
        seq![points.last()] + points
    } else {
        points
    }
}

/// The segments of a walk from its point `i` on: a point followed by a control
/// point starts a cubic segment of four points, where four are left; any other
/// point starts a line to the next point.
pub open spec fn segs_from<P>(w: Seq<PathPoint<P>>, i: int) -> Seq<PathSeg<P>>
    decreases w.len() - i,
{
    if i < 0 || i + 1 >= w.len() {
        Seq::empty()
    } else if w[i + 1].typ == PointType::OffCurve && i + 3 < w.len() {
        seq![PathSeg::Cubic(w[i], w[i + 1], w[i + 2], w[i + 3])] + segs_from(w, i + 3)
    } else {
        seq![PathSeg::Line(w[i], w[i + 1])] + segs_from(w, i + 1)
    }
}

impl<P: Copy> PathParts<P> {
    /// The segments of the path, in order.
    pub fn segments(&self) -> (r: PathSegments<P>)
        ensures
            r.id == self.id,
            r.closed == self.closed,
            r.segs@ == segs_from(walk(self.points@, self.closed), 0),
            walk(self.points@, self.closed).len() >= 2 ==> chain_points(r.segs@) == walk(self.points@, self.closed),
            walk(self.points@, self.closed).len() < 2 ==> r.segs@.len() == 0,
    {
        let n = self.points.len();
        let mut w: Vec<PathPoint<P>> = Vec::new();
        if self.closed && n > 0 {
            w.push(self.points[n - 1]);
        }
        let mut k: usize = 0;
        let ghost w0 = w@;
        while k < n
            invariant
                n == self.points@.len(),
                0 <= k <= n,
                w@ == w0 + self.points@.subrange(0, k as int),
                w0 == (if self.closed && n > 0 { seq![self.points@.last()] } else { Seq::<PathPoint<P>>::empty() }),
            decreases n - k,
        {
            w.push(self.points[k]);
            k = k + 1;
            assert(w@ =~= w0 + self.points@.subrange(0, k as int));
        }
        assert(self.points@.subrange(0, n as int) =~= self.points@);
        assert(w@ =~= walk(self.points@, self.closed));
        let ghost ws = w@;
        let mut segs: Vec<PathSeg<P>> = Vec::new();
        let mut i: usize = 0;
        while i < w.len() && w.len() - i > 1
            invariant
                ws == w@,
                0 <= i <= w@.len(),
                segs@ + segs_from(ws, i as int) == segs_from(ws, 0),
            decreases w@.len() - i,
        {
            if w[i + 1].typ == PointType::OffCurve && w.len() - i > 3 {
                segs.push(PathSeg::Cubic(w[i], w[i + 1], w[i + 2], w[i + 3]));
                assert(segs_from(ws, i as int) == seq![PathSeg::Cubic(ws[i as int], ws[i + 1], ws[i + 2], ws[i + 3])] + segs_from(ws, i + 3));
                i = i + 3;
            } else {
                segs.push(PathSeg::Line(w[i], w[i + 1]));
                assert(segs_from(ws, i as int) == seq![PathSeg::Line(ws[i as int], ws[i + 1])] + segs_from(ws, i + 1));
                i = i + 1;
            }
            assert(segs@ + segs_from(ws, i as int) =~= segs_from(ws, 0)) by {
                assert(segs@ =~= segs@.drop_last().push(segs@.last()));
            }
        }
        assert(segs_from(ws, i as int) == Seq::<PathSeg<P>>::empty());
        assert(segs@ =~= segs_from(ws, 0));
        proof {
            if ws.len() >= 2 {
                lemma_segments_cover_path(self.points@, self.closed);
            }
        }
        PathSegments { id: self.id, segs: segs, closed: self.closed }
    }
}

/// The points of segments laid end to end: all points of the first segment, then
/// each following segment's points but its first.
pub open spec fn chain_points<P>(segs: Seq<PathSeg<P>>) -> Seq<PathPoint<P>>
    decreases segs.len(),
{
    if segs.len() == 0 {
        seq![]
    } else if segs.len() == 1 {
        segs[0].pts()
    } else {
        chain_points(segs.drop_last()) + segs.last().pts().drop_first()
    }
}

/// Segments laid end to end end with the last point of the last segment.
pub proof fn lemma_chain_last<P>(segs: Seq<PathSeg<P>>)
    requires
        segs.len() > 0,
    ensures
        chain_points(segs).len() >= 2,
        chain_points(segs).last() == segs.last().pts().last(),
    decreases segs.len(),
{
    if segs.len() > 1 {
        lemma_chain_last(segs.drop_last());
    }
}

/// Laying two runs of segments end to end lays out the first run, then the second
/// without its first point.
pub proof fn lemma_chain_append<P>(s1: Seq<PathSeg<P>>, s2: Seq<PathSeg<P>>)
    requires
        s1.len() > 0,
        s2.len() > 0,
    ensures
        chain_points(s1 + s2) == chain_points(s1) + chain_points(s2).drop_first(),
    decreases s2.len(),
{
    let whole = s1 + s2;
    assert(whole.drop_last() =~= s1 + s2.drop_last());
    assert(whole.last() == s2.last());
    if s2.len() == 1 {
        assert(whole.drop_last() =~= s1);
        assert(chain_points(s2) == s2[0].pts());
        assert(s2.last() == s2[0]);
    } else {
        lemma_chain_append(s1, s2.drop_last());
        lemma_chain_last(s2.drop_last());
        let x = chain_points(s2.drop_last());
        let y = s2.last().pts().drop_first();
        assert((x + y).drop_first() =~= x.drop_first() + y);
        assert(chain_points(s1) + x.drop_first() + y =~= chain_points(s1) + (x + y).drop_first());
    }
}

/// The segments of a walk from its point `i` on, laid end to end, give back the
/// walk from `i` on: every point once, in the walk's order.
pub proof fn lemma_segs_from_chain<P>(w: Seq<PathPoint<P>>, i: int)
    requires
        0 <= i,
        i + 1 < w.len(),
    ensures
        segs_from(w, i).len() > 0,
        chain_points(segs_from(w, i)) == w.subrange(i, w.len() as int),
    decreases w.len() - i,
{
    let next = if w[i + 1].typ == PointType::OffCurve && i + 3 < w.len() {
        i + 3
    } else {
        i + 1
    };
    let seg = if next == i + 3 {
        PathSeg::Cubic(w[i], w[i + 1], w[i + 2], w[i + 3])
    } else {
        PathSeg::Line(w[i], w[i + 1])
    };
    assert(segs_from(w, i) == seq![seg] + segs_from(w, next));
    assert(seg.pts() =~= w.subrange(i, next + 1));
    assert(chain_points(seq![seg]) == seg.pts());
    if next + 1 < w.len() {
        lemma_segs_from_chain(w, next);
        lemma_chain_append(seq![seg], segs_from(w, next));
        assert(w.subrange(next, w.len() as int).drop_first() =~= w.subrange(next + 1, w.len() as int));
        assert(w.subrange(i, next + 1) + w.subrange(next + 1, w.len() as int) =~= w.subrange(i, w.len() as int));
    } else {
        assert(segs_from(w, next) == Seq::<PathSeg<P>>::empty());
        assert(seq![seg] + segs_from(w, next) =~= seq![seg]);
        assert(w.subrange(i, next + 1) =~= w.subrange(i, w.len() as int));
    }
}

/// The segments of a path, laid end to end, are the path's points in the order
/// the segments walk them: each segment lists its points as the path holds them,
/// and no point is left out, repeated or moved.
pub proof fn lemma_segments_cover_path<P>(points: Seq<PathPoint<P>>, closed: bool)
    requires
        walk(points, closed).len() >= 2,
    ensures
        chain_points(segs_from(walk(points, closed), 0)) == walk(points, closed),
{
    let w = walk(points, closed);
    lemma_segs_from_chain(w, 0);
    assert(w.subrange(0, w.len() as int) =~= w);
}

} // verus!
