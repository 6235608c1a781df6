use knife::jobs::{SliceJob, SliceJobs, MAX_RECURSE};
use knife::path::{EntityId, PathPoint, PathSeg, PathSegments, PointType};
use knife::slice::{append_all_points, first_two_hits, order_points, slice_first_path, slice_second_path, Hit};

type Pt = (i64, i64);

fn on(parent: usize, idx: usize, x: i64, y: i64) -> PathPoint<Pt> {
    PathPoint { id: EntityId { parent, idx }, point: (x, y), typ: PointType::OnCurve }
}

fn off(parent: usize, idx: usize, x: i64, y: i64) -> PathPoint<Pt> {
    PathPoint { id: EntityId { parent, idx }, point: (x, y), typ: PointType::OffCurve }
}

fn positions(points: &[PathPoint<Pt>]) -> Vec<Pt> {
    points.iter().map(|p| p.point).collect()
}

fn hit(seg: PathSeg<Pt>, line_t: f64, segment_t: f64, point: Pt) -> Hit<Pt, f64> {
    Hit { line_t, segment_t, point, seg }
}

/// The triangle (10, 10), (0, 0), (20, 0), closed, as three line segments.
fn triangle() -> (PathSegments<Pt>, [PathPoint<Pt>; 3]) {
    let a = on(1, 1, 10, 10);
    let b = on(1, 2, 0, 0);
    let c = on(1, 3, 20, 0);
    let segs = vec![PathSeg::Line(a, b), PathSeg::Line(b, c), PathSeg::Line(c, a)];
    (PathSegments { id: 1, segs, closed: true }, [a, b, c])
}

#[test]
fn append_skips_repeated_first_point() {
    let mut dest = vec![on(1, 1, 0, 0), on(1, 2, 5, 5)];
    append_all_points(&mut dest, PathSeg::Line(on(1, 3, 5, 5), on(1, 4, 9, 1)));
    assert_eq!(positions(&dest), vec![(0, 0), (5, 5), (9, 1)]);
    assert_eq!(dest[1].id.idx, 2);
}

#[test]
fn append_keeps_new_first_point() {
    let mut dest = vec![on(1, 1, 0, 0)];
    append_all_points(&mut dest, PathSeg::Line(on(1, 3, 5, 5), on(1, 4, 9, 1)));
    assert_eq!(positions(&dest), vec![(0, 0), (5, 5), (9, 1)]);
}

#[test]
fn append_to_empty_takes_every_point() {
    let mut dest = Vec::new();
    let seg = PathSeg::Cubic(on(1, 1, 0, 0), off(1, 2, 0, 5), off(1, 3, 5, 5), on(1, 4, 5, 0));
    append_all_points(&mut dest, seg);
    assert_eq!(positions(&dest), vec![(0, 0), (0, 5), (5, 5), (5, 0)]);
    assert_eq!(dest[1].typ, PointType::OffCurve);
}

#[test]
fn order_by_segment() {
    let (path, _) = triangle();
    let h0 = hit(path.segs[0], 0.2, 0.6, (4, 4));
    let h1 = hit(path.segs[1], 0.7, 0.35, (7, 0));
    let (s, e) = order_points(&path.segs, h1, h0);
    assert_eq!(s.point, (4, 4));
    assert_eq!(e.point, (7, 0));
    let (s, e) = order_points(&path.segs, h0, h1);
    assert_eq!(s.point, (4, 4));
    assert_eq!(e.point, (7, 0));
}

#[test]
fn order_on_one_segment_by_parameter() {
    let (path, _) = triangle();
    let early = hit(path.segs[2], 0.9, 0.25, (17, 2));
    let late = hit(path.segs[2], 0.1, 0.75, (12, 7));
    let (s, e) = order_points(&path.segs, late, early);
    assert_eq!(s.point, (17, 2));
    assert_eq!(e.point, (12, 7));
    let (s, e) = order_points(&path.segs, early, late);
    assert_eq!(s.point, (17, 2));
    assert_eq!(e.point, (12, 7));
}

#[test]
fn first_path_of_triangle() {
    let (path, [a, b, c]) = triangle();
    let start = hit(path.segs[0], 0.25, 0.6, (4, 4));
    let end = hit(path.segs[1], 0.75, 0.35, (7, 0));
    let head = PathSeg::Line(a, on(1, 10, 4, 4));
    let tail = PathSeg::Line(on(1, 11, 7, 0), c);
    let one = slice_first_path(&path, &start, &end, head, tail);
    assert_eq!(one.id, 1);
    assert!(one.closed);
    // A closed path keeps its start point last.
    assert_eq!(positions(&one.points), vec![(4, 4), (7, 0), (20, 0), (10, 10)]);
    assert!(one.points.iter().all(|p| p.id.parent == 1));
    let _ = b;
}

#[test]
fn second_path_of_triangle() {
    let (path, [_a, b, _c]) = triangle();
    let start = hit(path.segs[0], 0.25, 0.6, (4, 4));
    let end = hit(path.segs[1], 0.75, 0.35, (7, 0));
    let first_piece = PathSeg::Line(on(1, 10, 4, 4), b);
    let end_piece = PathSeg::Line(b, on(1, 11, 7, 0));
    let cut = on(5, 12, 4, 4);
    let two = slice_second_path(&path, 5, &start, &end, first_piece, end_piece, cut);
    assert_eq!(two.id, 5);
    assert!(two.closed);
    assert_eq!(positions(&two.points), vec![(0, 0), (7, 0), (4, 4)]);
    assert!(two.points.iter().all(|p| p.id.parent == 5));
}

/// An open path of one cubic segment, cut twice within it.
fn open_cubic() -> (PathSegments<Pt>, PathSeg<Pt>) {
    let seg = PathSeg::Cubic(on(1, 1, 0, 0), off(1, 2, 0, 15), off(1, 3, 10, 15), on(1, 4, 10, 0));
    (PathSegments { id: 1, segs: vec![seg], closed: false }, seg)
}

#[test]
fn open_cubic_cut_twice_in_one_segment() {
    let (path, seg) = open_cubic();
    let start = hit(seg, 0.1, 0.2, (1, 8));
    let end = hit(seg, 0.9, 0.8, (9, 8));
    let head = PathSeg::Cubic(on(1, 1, 0, 0), off(1, 2, 0, 6), off(1, 3, 0, 8), on(1, 10, 1, 8));
    let tail = PathSeg::Cubic(on(1, 11, 9, 8), off(1, 2, 10, 8), off(1, 3, 10, 6), on(1, 4, 10, 0));
    let one = slice_first_path(&path, &start, &end, head, tail);
    assert!(!one.closed);
    assert_eq!(one.points.len(), 8);
    assert_eq!(one.points[0].point, (0, 0));
    assert_eq!(one.points[7].point, (10, 0));

    let middle = PathSeg::Cubic(on(1, 10, 1, 8), off(1, 5, 3, 10), off(1, 6, 7, 10), on(1, 11, 9, 8));
    let cut = on(2, 12, 1, 8);
    let two = slice_second_path(&path, 2, &start, &end, middle, middle, cut);
    assert!(two.closed);
    assert_eq!(two.points.len(), 5);
    assert_eq!(positions(&two.points), vec![(3, 10), (7, 10), (9, 8), (1, 8), (1, 8)]);
}

#[test]
fn first_path_drops_repeated_closing_point() {
    // An open path whose two ends meet: the last point repeats the first and goes.
    let a = on(1, 1, 0, 0);
    let b = on(1, 2, 10, 0);
    let c = on(1, 3, 10, 10);
    let d = on(1, 4, 0, 0);
    let segs = vec![PathSeg::Line(a, b), PathSeg::Line(b, c), PathSeg::Line(c, d)];
    let path = PathSegments { id: 1, segs, closed: false };
    let start = hit(path.segs[1], 0.3, 0.5, (10, 5));
    let end = hit(path.segs[1], 0.6, 0.7, (10, 7));
    let head = PathSeg::Line(b, on(1, 10, 10, 5));
    let tail = PathSeg::Line(on(1, 11, 10, 7), c);
    let one = slice_first_path(&path, &start, &end, head, tail);
    assert_eq!(positions(&one.points), vec![(0, 0), (10, 0), (10, 5), (10, 7), (10, 10)]);
}

#[test]
fn first_path_keeps_start_point_when_cut_later() {
    let (path, [a, b, _c]) = triangle();
    let start = hit(path.segs[1], 0.25, 0.5, (10, 0));
    let end = hit(path.segs[2], 0.75, 0.5, (15, 5));
    let head = PathSeg::Line(b, on(1, 10, 10, 0));
    let tail = PathSeg::Line(on(1, 11, 15, 5), a);
    let one = slice_first_path(&path, &start, &end, head, tail);
    assert!(one.points.iter().any(|p| p.point == a.point && p.id.idx == a.id.idx));
    assert_eq!(positions(&one.points), vec![(0, 0), (10, 0), (15, 5), (10, 10)]);
}

#[test]
fn jobs_cut_depth_first() {
    let mut jobs: SliceJobs<&str, u8> = SliceJobs::new("whole", 0);
    let job = jobs.current().unwrap();
    assert_eq!(job.depth, 0);
    assert!(SliceJobs::<&str, u8>::should_cut(job, 2));
    jobs.split_current("left", "right", 1);
    let job = jobs.current().unwrap();
    assert_eq!(job.path, "left");
    assert_eq!(job.depth, 1);
    assert_eq!(job.line, 1);
    assert!(!SliceJobs::<&str, u8>::should_cut(job, 1));
    jobs.keep_current();
    let job = jobs.current().unwrap();
    assert_eq!(job.path, "right");
    jobs.keep_current();
    assert!(jobs.current().is_none());
    assert_eq!(jobs.into_paths(), vec!["left", "right"]);
}

#[test]
fn jobs_stop_at_depth_limit() {
    let job = SliceJob { path: "deep", line: 0u8, depth: MAX_RECURSE };
    assert!(!SliceJobs::<&str, u8>::should_cut(&job, 5));
    let job = SliceJob { path: "shallow", line: 0u8, depth: MAX_RECURSE - 1 };
    assert!(SliceJobs::<&str, u8>::should_cut(&job, 2));
    assert!(!SliceJobs::<&str, u8>::should_cut(&job, 0));
}

#[test]
fn jobs_cut_everything_to_the_limit() {
    // Cutting every piece while the limit allows ends in 2^MAX_RECURSE pieces.
    let mut jobs: SliceJobs<u32, u8> = SliceJobs::new(0, 0);
    let mut steps = 0u32;
    while let Some(job) = jobs.current() {
        steps += 1;
        if SliceJobs::<u32, u8>::should_cut(job, 2) {
            let p = job.path;
            jobs.split_current(2 * p, 2 * p + 1, 0);
        } else {
            jobs.keep_current();
        }
    }
    let pieces = jobs.into_paths();
    assert_eq!(pieces.len(), 1 << MAX_RECURSE);
    assert_eq!(steps, (1 << (MAX_RECURSE + 1)) - 1);
    assert_eq!(pieces[0], 0);
    assert_eq!(pieces[1], 1);
}

#[test]
fn uncut_path_is_kept_unchanged() {
    let mut jobs: SliceJobs<&str, u8> = SliceJobs::new("whole", 0);
    let job = jobs.current().unwrap();
    assert!(!SliceJobs::<&str, u8>::should_cut(job, 1));
    jobs.keep_current();
    assert!(jobs.current().is_none());
    assert_eq!(jobs.into_paths(), vec!["whole"]);
}

#[test]
fn first_two_hits_along_the_line() {
    let (path, _) = triangle();
    let seg = path.segs[0];
    let hits = vec![
        hit(seg, 0.5, 0.0, (0, 0)),
        hit(seg, 0.2, 0.0, (1, 0)),
        hit(seg, 0.9, 0.0, (2, 0)),
        hit(seg, 0.2, 0.0, (3, 0)),
    ];
    assert_eq!(first_two_hits(&hits), (1, 3));
    let hits = vec![hit(seg, 0.7, 0.0, (0, 0)), hit(seg, 0.3, 0.0, (1, 0)), hit(seg, 0.5, 0.0, (2, 0))];
    assert_eq!(first_two_hits(&hits), (1, 2));
    let hits = vec![hit(seg, 0.1, 0.0, (0, 0)), hit(seg, 0.3, 0.0, (1, 0))];
    assert_eq!(first_two_hits(&hits), (0, 1));
}

#[test]
fn open_path_cut_across_segments_closes_along_the_cut() {
    // Open path (0,0) -> (0,10) -> (10,10) -> (10,0), cut from (0,5) to (10,5).
    let a = on(1, 1, 0, 0);
    let b = on(1, 2, 0, 10);
    let c = on(1, 3, 10, 10);
    let d = on(1, 4, 10, 0);
    let segs = vec![PathSeg::Line(a, b), PathSeg::Line(b, c), PathSeg::Line(c, d)];
    let path = PathSegments { id: 1, segs, closed: false };
    let start = hit(path.segs[0], 0.0, 0.5, (0, 5));
    let end = hit(path.segs[2], 1.0, 0.5, (10, 5));
    let first_piece = PathSeg::Line(on(1, 10, 0, 5), b);
    let end_piece = PathSeg::Line(c, on(1, 11, 10, 5));
    let cut = on(2, 12, 0, 5);
    let two = slice_second_path(&path, 2, &start, &end, first_piece, end_piece, cut);
    assert!(two.closed);
    // (0,5) (0,10) (10,10) (10,5), then back to (0,5) along the cut; start point last.
    assert_eq!(positions(&two.points), vec![(0, 10), (10, 10), (10, 5), (0, 5), (0, 5)]);
    assert!(two.points.iter().all(|p| p.id.idx != a.id.idx));

    let head = PathSeg::Line(a, on(1, 10, 0, 5));
    let tail = PathSeg::Line(on(1, 11, 10, 5), d);
    let one = slice_first_path(&path, &start, &end, head, tail);
    assert!(!one.closed);
    assert_eq!(positions(&one.points), vec![(0, 0), (0, 5), (10, 5), (10, 0)]);
}

#[test]
fn second_path_of_triangle_omits_start_point() {
    let (path, [a, b, _c]) = triangle();
    let start = hit(path.segs[0], 0.25, 0.6, (4, 4));
    let end = hit(path.segs[1], 0.75, 0.35, (7, 0));
    let first_piece = PathSeg::Line(on(1, 10, 4, 4), b);
    let end_piece = PathSeg::Line(b, on(1, 11, 7, 0));
    let two = slice_second_path(&path, 5, &start, &end, first_piece, end_piece, on(5, 12, 4, 4));
    assert!(two.points.iter().all(|p| p.id.idx != a.id.idx && p.point != a.point));
}

#[test]
fn appending_meeting_segments_keeps_each_meeting_point_once() {
    let segs = [
        PathSeg::Line(on(1, 1, 0, 0), on(1, 2, 5, 0)),
        PathSeg::Cubic(on(1, 3, 5, 0), off(1, 4, 6, 1), off(1, 5, 7, 1), on(1, 6, 8, 0)),
        PathSeg::Line(on(1, 7, 8, 0), on(1, 8, 9, 9)),
    ];
    let mut dest = Vec::new();
    for s in segs {
        append_all_points(&mut dest, s);
    }
    assert_eq!(positions(&dest), vec![(0, 0), (5, 0), (6, 1), (7, 1), (8, 0), (9, 9)]);
    // The earlier segment's copy of each meeting point stays.
    assert_eq!(dest[1].id.idx, 2);
    assert_eq!(dest[4].id.idx, 6);
}

#[test]
fn segments_of_closed_path_start_at_last_point() {
    let parts = knife::path::PathParts {
        id: 1,
        points: vec![on(1, 10, 4, 4), on(1, 11, 7, 0), on(1, 3, 20, 0), on(1, 1, 10, 10)],
        closed: true,
    };
    let segs = parts.segments();
    assert_eq!(segs.id, 1);
    assert!(segs.closed);
    let ends: Vec<(Pt, Pt)> = segs
        .segs
        .iter()
        .map(|s| match s {
            PathSeg::Line(a, b) => (a.point, b.point),
            PathSeg::Cubic(a, _, _, d) => (a.point, d.point),
        })
        .collect();
    assert_eq!(ends, vec![((10, 10), (4, 4)), ((4, 4), (7, 0)), ((7, 0), (20, 0)), ((20, 0), (10, 10))]);
}

#[test]
fn segments_of_open_path_group_control_points() {
    let parts = knife::path::PathParts {
        id: 1,
        points: vec![on(1, 1, 0, 0), off(1, 2, 0, 15), off(1, 3, 10, 15), on(1, 4, 10, 0), on(1, 5, 20, 0)],
        closed: false,
    };
    let segs = parts.segments();
    assert_eq!(segs.segs.len(), 2);
    assert!(matches!(segs.segs[0], PathSeg::Cubic(..)));
    assert!(matches!(segs.segs[1], PathSeg::Line(..)));
    assert_eq!(segs.segs[1].start_id().idx, 4);
}
