//! A recorded path, cut into segments at its tip points.
use crate::geometry::{Pose, Vector, RADIUS_MAX};
use vstd::prelude::*;

verus! {

/// A path in segments. Each segment is a run of waypoints of which each
/// continues to the next; where the run breaks, the next segment begins.
pub struct Path(pub Vec<Vec<Pose>>);

/// What a search of the path is given.
#[derive(Clone, Copy, Debug)]
pub struct RelocateConfig {
    /// Where the robot is.
    pub pose: Pose,
    /// The cursor at which the search starts.
    pub index: (usize, usize),
    /// How far from the robot a waypoint may be, in millimetres.
    pub search_radius: i64,
    /// Whether the path is a closed loop, so that the search may go on from
    /// its beginning.
    pub cyclic: bool,
}

impl View for Path {
    type V = Seq<Seq<Pose>>;

    open spec fn view(&self) -> Seq<Seq<Pose>> {
        segments_of(self.0@)
    }
}

/// The segments held by a vector of vectors, as sequences.
pub open spec fn segments_of(v: Seq<Vec<Pose>>) -> Seq<Seq<Pose>> {
    Seq::new(v.len(), |i: int| v[i]@)
}

/// How many of the most recent points of a segment of `len` points are
/// looked at when a point is to be joined to it.
pub open spec fn window(len: int, tip_ignore: int) -> int {
    if tip_ignore + 1 < len {
        tip_ignore + 1
    } else {
        len
    }
}

/// The least backward offset, from `k` on and below `limit`, of a point of
/// `segment` that continues to `p`. Offset 0 is the last point of the segment.
pub open spec fn first_bridge(segment: Seq<Pose>, radius: int, p: Pose, k: int, limit: int) -> Option<int>
    decreases limit - k,
{
    if k >= limit {
        None
    } else if segment[segment.len() - 1 - k].continues_to(radius, p) {
        Some(k)
    } else {
        first_bridge(segment, radius, p, k + 1, limit)
    }
}

/// The segments after `p` has been consumed. `p` joins the current segment
/// behind the most recent of its last `tip_ignore + 1` points that continues
/// to `p`, and the points behind that one are dropped. Where none of them
/// continues to `p`, the segment is closed and `p` opens the next one.
pub open spec fn extend(segments: Seq<Seq<Pose>>, p: Pose, radius: int, tip_ignore: int) -> Seq<
    Seq<Pose>,
> {
    let current = segments.last();
    match first_bridge(current, radius, p, 0, window(current.len() as int, tip_ignore)) {
        Some(k) => segments.drop_last().push(current.take(current.len() - k).push(p)),
        None => if current.len() == 0 {
            segments.drop_last().push(seq![p])
        } else {
            segments.push(seq![p])
        },
    }
}

/// The segments of the path through `points`: one empty segment to begin
/// with, then each point consumed in turn.
pub open spec fn build(points: Seq<Pose>, radius: int, tip_ignore: int) -> Seq<Seq<Pose>>
    decreases points.len(),
{
    if points.len() == 0 {
        seq![Seq::<Pose>::empty()]
    } else {
        extend(build(points.drop_last(), radius, tip_ignore), points.last(), radius, tip_ignore)
    }
}

/// The waypoints of all segments, in order.
pub open spec fn flatten(segments: Seq<Seq<Pose>>) -> Seq<Pose>
    decreases segments.len(),
{
    if segments.len() == 0 {
        Seq::<Pose>::empty()
    } else {
        flatten(segments.drop_last()) + segments.last()
    }
}

/// Every pose of `points` is well formed.
pub open spec fn all_wf(points: Seq<Pose>) -> bool {
    forall|i: int| 0 <= i < points.len() ==> (#[trigger] points[i]).wf()
}

/// Each point of `segment` but the last continues to the one behind it.
pub open spec fn continuous(segment: Seq<Pose>, radius: int) -> bool {
    forall|j: int|
        0 <= j && j + 1 < segment.len() ==> (#[trigger] segment[j]).continues_to(
            radius,
            segment[j + 1],
        )
}

/// What a path can be followed with: there is at least one segment; no
/// segment is empty, unless it is the only one (the path through no points);
/// and every waypoint is well formed.
pub open spec fn sound(segments: Seq<Seq<Pose>>) -> bool {
    &&& segments.len() >= 1
    &&& segments.len() == 1 || forall|i: int|
        0 <= i < segments.len() ==> (#[trigger] segments[i]).len() > 0
    &&& forall|i: int| 0 <= i < segments.len() ==> all_wf(#[trigger] segments[i])
}

/// What holds of the segments of every path that was cut at `radius`: the
/// path is sound; within a segment each point continues to the next; and
/// no segment continues to the one behind it.
pub open spec fn segmented(segments: Seq<Seq<Pose>>, radius: int) -> bool {
    &&& sound(segments)
    &&& forall|i: int| 0 <= i < segments.len() ==> continuous(#[trigger] segments[i], radius)
    &&& forall|i: int|
        0 <= i && i + 1 < segments.len() ==> !(#[trigger] segments[i]).last().continues_to(
            radius,
            segments[i + 1].first(),
        )
}

/// What `first_bridge` returns: the offset of a point that continues to `p`,
/// with no such point at a smaller offset from `k` on; or `None`, with no
/// such point from `k` up to `limit`.
pub proof fn lemma_first_bridge(segment: Seq<Pose>, radius: int, p: Pose, k: int, limit: int)
    requires
        0 <= k,
        limit <= segment.len(),
    ensures
        match first_bridge(segment, radius, p, k, limit) {
            Some(b) => {
                &&& k <= b < limit
                &&& segment[segment.len() - 1 - b].continues_to(radius, p)
                &&& forall|j: int|
                    k <= j < b ==> !(#[trigger] segment[segment.len() - 1 - j]).continues_to(
                        radius,
                        p,
                    )
            },
            None => forall|j: int|
                k <= j < limit ==> !(#[trigger] segment[segment.len() - 1 - j]).continues_to(
                    radius,
                    p,
                ),
        },
    decreases limit - k,
{
    if k < limit && !segment[segment.len() - 1 - k].continues_to(radius, p) {
        lemma_first_bridge(segment, radius, p, k + 1, limit);
    }
}

/// Consuming a point keeps the segments in order.
pub proof fn lemma_extend_segmented(
    segments: Seq<Seq<Pose>>,
    p: Pose,
    radius: int,
    tip_ignore: int,
)
    requires
        segmented(segments, radius),
        p.wf(),
        0 <= tip_ignore,
    ensures
        segmented(extend(segments, p, radius, tip_ignore), radius),
        extend(segments, p, radius, tip_ignore).last().len() > 0,
{
    let current = segments.last();
    let n = segments.len() as int;
    let limit = window(current.len() as int, tip_ignore);
    let next = extend(segments, p, radius, tip_ignore);
    lemma_first_bridge(current, radius, p, 0, limit);
    match first_bridge(current, radius, p, 0, limit) {
        Some(k) => {
            let joined = current.take(current.len() - k).push(p);
            assert(next.len() == n);
            assert(next[n - 1] == joined);
            assert forall|i: int| 0 <= i < n implies all_wf(#[trigger] next[i]) && continuous(
                next[i],
                radius,
            ) && next[i].len() > 0 by {
                if i < n - 1 {
                    assert(next[i] == segments[i]);
                    assert(all_wf(segments[i]));
                    assert(continuous(segments[i], radius));
                } else {
                    assert(all_wf(segments[n - 1]));
                    assert(continuous(segments[n - 1], radius));
                    assert forall|j: int| 0 <= j < joined.len() implies (#[trigger] joined[j]).wf() by {
                        if j < joined.len() - 1 {
                            assert(joined[j] == current[j]);
                        }
                    }
                    assert forall|j: int| 0 <= j && j + 1 < joined.len() implies (
                    #[trigger] joined[j]).continues_to(radius, joined[j + 1]) by {
                        if j + 1 < joined.len() - 1 {
                            assert(joined[j] == current[j]);
                            assert(joined[j + 1] == current[j + 1]);
                        } else {
                            assert(joined[j] == current[current.len() - 1 - k]);
                        }
                    }
                }
            }
            assert forall|i: int| 0 <= i && i + 1 < n implies !(#[trigger] next[i]).last().continues_to(
                radius,
                next[i + 1].first(),
            ) by {
                assert(next[i] == segments[i]);
                assert(!segments[i].last().continues_to(radius, segments[i + 1].first()));
                if i + 1 == n - 1 {
                    assert(joined.first() == current.first());
                } else {
                    assert(next[i + 1] == segments[i + 1]);
                }
            }
        },
        None => {
            if current.len() == 0 {
                assert(n == 1) by {
                    if n != 1 {
                        assert(segments[n - 1].len() > 0);
                    }
                }
                assert(next =~= seq![seq![p]]);
                assert(next[0] =~= seq![p]);
                assert(all_wf(next[0]));
                assert(continuous(next[0], radius));
            } else {
                assert(next.len() == n + 1);
                assert(next[n] =~= seq![p]);
                assert(!current[current.len() - 1 - 0].continues_to(radius, p));
                assert forall|i: int| 0 <= i < n + 1 implies all_wf(#[trigger] next[i])
                    && continuous(next[i], radius) && next[i].len() > 0 by {
                    if i < n {
                        assert(next[i] == segments[i]);
                        assert(all_wf(segments[i]));
                        assert(continuous(segments[i], radius));
                        if n != 1 {
                            assert(segments[i].len() > 0);
                        }
                    }
                }
                assert forall|i: int| 0 <= i && i + 1 < n + 1 implies !(
                #[trigger] next[i]).last().continues_to(radius, next[i + 1].first()) by {
                    assert(next[i] == segments[i]);
                    if i + 1 < n {
                        assert(next[i + 1] == segments[i + 1]);
                        assert(!segments[i].last().continues_to(radius, segments[i + 1].first()));
                    }
                }
            }
        },
    }
}

/// The segments of every path are in order, whatever the points.
pub proof fn lemma_build_segmented(points: Seq<Pose>, radius: int, tip_ignore: int)
    requires
        all_wf(points),
        0 <= tip_ignore,
    ensures
        segmented(build(points, radius, tip_ignore), radius),
        points.len() > 0 ==> forall|i: int|
            0 <= i < build(points, radius, tip_ignore).len() ==> (#[trigger] build(
                points,
                radius,
                tip_ignore,
            )[i]).len() > 0,
    decreases points.len(),
{
    if points.len() == 0 {
        let first = seq![Seq::<Pose>::empty()];
        assert(first[0].len() == 0);
        assert(all_wf(first[0]));
        assert(continuous(first[0], radius));
    } else {
        let front = points.drop_last();
        assert(all_wf(front)) by {
            assert forall|i: int| 0 <= i < front.len() implies (#[trigger] front[i]).wf() by {
                assert(front[i] == points[i]);
            }
        }
        lemma_build_segmented(front, radius, tip_ignore);
        lemma_extend_segmented(build(front, radius, tip_ignore), points.last(), radius, tip_ignore);
        let next = build(points, radius, tip_ignore);
        if next.len() == 1 {
            assert(next[0] == next.last());
        }
    }
}

/// The waypoints of a path with one more segment.
pub proof fn lemma_flatten_push(front: Seq<Seq<Pose>>, last: Seq<Pose>)
    ensures
        flatten(front.push(last)) == flatten(front) + last,
{
    assert(front.push(last).drop_last() =~= front);
    assert(front.push(last).last() == last);
}

/// The segments of a path before its last waypoint was consumed.
pub open spec fn unextend(segments: Seq<Seq<Pose>>) -> Seq<Seq<Pose>> {
    if segments.last().len() > 1 || segments.len() == 1 {
        segments.drop_last().push(segments.last().drop_last())
    } else {
        segments.drop_last()
    }
}

/// Taking the last waypoint away keeps the segments in order.
proof fn lemma_unextend_segmented(segments: Seq<Seq<Pose>>, radius: int)
    requires
        segmented(segments, radius),
        segments.last().len() > 0,
    ensures
        segmented(unextend(segments), radius),
        flatten(segments) == flatten(unextend(segments)).push(segments.last().last()),
{
    let n = segments.len() as int;
    let last = segments.last();
    let front = segments.drop_last();
    let shorter = last.drop_last();
    let earlier = unextend(segments);
    assert(all_wf(segments[n - 1]));
    assert(continuous(segments[n - 1], radius));
    assert(flatten(earlier) =~= flatten(front) + shorter) by {
        if shorter.len() > 0 || n == 1 {
            lemma_flatten_push(front, shorter);
        } else {
            assert(shorter =~= Seq::<Pose>::empty());
        }
    }
    assert(flatten(segments) =~= flatten(earlier).push(last.last()));
    assert forall|i: int| 0 <= i < earlier.len() implies all_wf(#[trigger] earlier[i])
        && continuous(earlier[i], radius) && (earlier.len() == 1 || earlier[i].len() > 0) by {
        if i < n - 1 {
            assert(earlier[i] == segments[i]);
            assert(all_wf(segments[i]));
            assert(continuous(segments[i], radius));
            if n != 1 {
                assert(segments[i].len() > 0);
            }
        } else {
            assert(earlier[i] == shorter);
            assert forall|j: int| 0 <= j < shorter.len() implies (#[trigger] shorter[j]).wf() by {
                assert(shorter[j] == last[j]);
            }
            assert forall|j: int| 0 <= j && j + 1 < shorter.len() implies (
            #[trigger] shorter[j]).continues_to(radius, shorter[j + 1]) by {
                assert(shorter[j] == last[j]);
                assert(shorter[j + 1] == last[j + 1]);
                assert(last[j].continues_to(radius, last[j + 1]));
            }
        }
    }
    assert forall|i: int| 0 <= i && i + 1 < earlier.len() implies !(
    #[trigger] earlier[i]).last().continues_to(radius, earlier[i + 1].first()) by {
        assert(earlier[i] == segments[i]);
        assert(!segments[i].last().continues_to(radius, segments[i + 1].first()));
        if i + 1 == n - 1 {
            assert(shorter.first() == last.first());
        } else {
            assert(earlier[i + 1] == segments[i + 1]);
        }
    }
}

/// Consuming the last waypoint of a path again, without looking back, gives
/// the path back.
proof fn lemma_extend_unextend(segments: Seq<Seq<Pose>>, radius: int)
    requires
        segmented(segments, radius),
        segments.last().len() > 0,
    ensures
        extend(unextend(segments), segments.last().last(), radius, 0) == segments,
{
    let n = segments.len() as int;
    let last = segments.last();
    let front = segments.drop_last();
    let shorter = last.drop_last();
    let earlier = unextend(segments);
    let p = last.last();
    let current = earlier.last();
    let limit = window(current.len() as int, 0);
    assert(continuous(segments[n - 1], radius));
    if shorter.len() > 0 {
        assert(current == shorter);
        assert(shorter[shorter.len() - 1] == last[last.len() - 2]);
        assert(last[last.len() - 2].continues_to(radius, last[last.len() - 2 + 1]));
        assert(limit == 1);
        assert(first_bridge(current, radius, p, 0, limit) == Some(0int));
        assert(current.take(current.len() - 0) =~= current);
        assert(shorter.push(p) =~= last);
        assert(earlier.drop_last() =~= front);
        assert(front.push(last) =~= segments);
    } else if n == 1 {
        assert(current =~= Seq::<Pose>::empty());
        assert(limit == 0);
        assert(first_bridge(current, radius, p, 0, limit).is_none());
        assert(seq![p] =~= last);
        assert(earlier.drop_last() =~= front);
        assert(front.push(last) =~= segments);
    } else {
        assert(earlier == front);
        assert(current == segments[n - 2]);
        assert(segments[n - 2].len() > 0);
        assert(!segments[n - 2].last().continues_to(radius, segments[n - 2 + 1].first()));
        assert(limit == 1);
        assert(first_bridge(current, radius, p, 0, limit + 0) == if current[current.len() - 1
            - 0].continues_to(radius, p) {
            Some(0int)
        } else {
            first_bridge(current, radius, p, 1, limit)
        });
        assert(seq![p] =~= last);
        assert(front.push(last) =~= segments);
    }
}

/// Cutting a path again at the same radius, without looking back, changes
/// nothing: the segments of its waypoints are the segments it has.
pub proof fn lemma_rebuild(segments: Seq<Seq<Pose>>, radius: int)
    requires
        segmented(segments, radius),
    ensures
        build(flatten(segments), radius, 0) == segments,
    decreases flatten(segments).len(),
{
    let n = segments.len() as int;
    let last = segments.last();
    if last.len() == 0 {
        assert(n == 1) by {
            if n != 1 {
                assert(segments[n - 1].len() > 0);
            }
        }
        assert(segments.drop_last() =~= Seq::<Seq<Pose>>::empty());
        assert(flatten(segments.drop_last()) =~= Seq::<Pose>::empty());
        assert(flatten(segments) =~= Seq::<Pose>::empty());
        assert(segments =~= seq![Seq::<Pose>::empty()]);
    } else {
        let earlier = unextend(segments);
        lemma_unextend_segmented(segments, radius);
        assert(flatten(segments).drop_last() =~= flatten(earlier));
        assert(flatten(segments).last() == last.last());
        lemma_rebuild(earlier, radius);
        lemma_extend_unextend(segments, radius);
    }
}

/// Building a path is idempotent: the path through the waypoints of a path,
/// built at the same radius and without looking back, has the same segments.
pub proof fn lemma_build_idempotent(points: Seq<Pose>, radius: int, tip_ignore: int)
    requires
        all_wf(points),
        0 <= tip_ignore,
    ensures
        build(flatten(build(points, radius, tip_ignore)), radius, 0) == build(
            points,
            radius,
            tip_ignore,
        ),
{
    lemma_build_segmented(points, radius, tip_ignore);
    lemma_rebuild(build(points, radius, tip_ignore), radius);
}

/// `c` is the cursor of a waypoint of the path.
pub open spec fn on_path(segments: Seq<Seq<Pose>>, c: (int, int)) -> bool {
    &&& 0 <= c.0 < segments.len()
    &&& 0 <= c.1 < segments[c.0].len()
}

/// `a` comes before `b` in path order.
pub open spec fn before(a: (int, int), b: (int, int)) -> bool {
    a.0 < b.0 || (a.0 == b.0 && a.1 < b.1)
}

/// The waypoint at `c` lies within `radius` of `centre`.
pub open spec fn near(segments: Seq<Seq<Pose>>, centre: Vector, radius: int, c: (int, int)) -> bool {
    &&& on_path(segments, c)
    &&& segments[c.0][c.1].position.within(centre, radius)
}

/// The first cursor, in path order from `(i, j)` on and before `stop`, of a
/// waypoint within `radius` of `centre`.
pub open spec fn first_near(
    segments: Seq<Seq<Pose>>,
    centre: Vector,
    radius: int,
    i: int,
    j: int,
    stop: (int, int),
) -> Option<(int, int)>
    decreases segments.len() - i, (if 0 <= i < segments.len() {
            segments[i].len() - j
        } else {
            0
        }),
{
    if i < 0 || j < 0 || i >= segments.len() || !before((i, j), stop) {
        None
    } else if j >= segments[i].len() {
        first_near(segments, centre, radius, i + 1, 0, stop)
    } else if segments[i][j].position.within(centre, radius) {
        Some((i, j))
    } else {
        first_near(segments, centre, radius, i, j + 1, stop)
    }
}

/// The cursor that a search from `start` arrives at: the first waypoint
/// within `radius` of `centre` from `start` to the end of the path; failing
/// that, on a cyclic path, the first one from the beginning of the path up to
/// `start`.
pub open spec fn relocated(
    segments: Seq<Seq<Pose>>,
    centre: Vector,
    radius: int,
    start: (int, int),
    cyclic: bool,
) -> Option<(int, int)> {
    match first_near(segments, centre, radius, start.0, start.1, (segments.len() as int, 0)) {
        Some(c) => Some(c),
        None => if cyclic {
            first_near(segments, centre, radius, 0, 0, start)
        } else {
            None
        },
    }
}

/// What `first_near` returns: a waypoint within the radius between `(i, j)`
/// and `stop`, with none such before it; or `None`, with none such between
/// `(i, j)` and `stop`.
pub proof fn lemma_first_near(
    segments: Seq<Seq<Pose>>,
    centre: Vector,
    radius: int,
    i: int,
    j: int,
    stop: (int, int),
)
    requires
        0 <= i,
        0 <= j,
    ensures
        match first_near(segments, centre, radius, i, j, stop) {
            Some(c) => {
                &&& near(segments, centre, radius, c)
                &&& !before(c, (i, j))
                &&& before(c, stop)
                &&& forall|a: int, b: int|
                    on_path(segments, (a, b)) && !before((a, b), (i, j)) && before((a, b), c)
                        ==> !(#[trigger] segments[a][b]).position.within(centre, radius)
            },
            None => forall|a: int, b: int|
                on_path(segments, (a, b)) && !before((a, b), (i, j)) && before((a, b), stop)
                    ==> !(#[trigger] segments[a][b]).position.within(centre, radius),
        },
    decreases segments.len() - i, (if 0 <= i < segments.len() {
            segments[i].len() - j
        } else {
            0
        }),
{
    if i >= segments.len() || !before((i, j), stop) {
    } else if j >= segments[i].len() {
        lemma_first_near(segments, centre, radius, i + 1, 0, stop);
    } else if segments[i][j].position.within(centre, radius) {
    } else {
        lemma_first_near(segments, centre, radius, i, j + 1, stop);
    }
}

/// A search that starts at `start` reaches `c`: always where `c` is not
/// before `start`, and on a cyclic path everywhere.
pub open spec fn reachable(start: (int, int), cyclic: bool, c: (int, int)) -> bool {
    cyclic || !before(c, start)
}

/// A search that starts at `start` comes to `a` before it comes to `b`.
pub open spec fn searched_before(start: (int, int), a: (int, int), b: (int, int)) -> bool {
    if before(a, start) == before(b, start) {
        before(a, b)
    } else {
        before(b, start)
    }
}

/// A search returns the first waypoint within the radius that it comes to,
/// and fails exactly where it comes to none.
pub proof fn lemma_relocated(
    segments: Seq<Seq<Pose>>,
    centre: Vector,
    radius: int,
    start: (int, int),
    cyclic: bool,
)
    requires
        0 <= start.0,
        0 <= start.1,
    ensures
        match relocated(segments, centre, radius, start, cyclic) {
            Some(c) => {
                &&& near(segments, centre, radius, c)
                &&& reachable(start, cyclic, c)
                &&& forall|a: int, b: int|
                    on_path(segments, (a, b)) && reachable(start, cyclic, (a, b))
                        && searched_before(start, (a, b), c) ==> !(
                    #[trigger] segments[a][b]).position.within(centre, radius)
            },
            None => forall|a: int, b: int|
                on_path(segments, (a, b)) && reachable(start, cyclic, (a, b)) ==> !(
                #[trigger] segments[a][b]).position.within(centre, radius),
        },
{
    let end = (segments.len() as int, 0int);
    lemma_first_near(segments, centre, radius, start.0, start.1, end);
    if first_near(segments, centre, radius, start.0, start.1, end).is_none() && cyclic {
        lemma_first_near(segments, centre, radius, 0, 0, start);
    }
}

/// A search from the beginning of the path, with the robot standing on the
/// waypoint at `w` and a positive radius, succeeds, and returns a waypoint
/// within the radius that is not behind `w`.
pub proof fn lemma_relocated_on_waypoint(
    segments: Seq<Seq<Pose>>,
    radius: int,
    w: (int, int),
    cyclic: bool,
)
    requires
        on_path(segments, w),
        radius > 0,
    ensures
        match relocated(segments, segments[w.0][w.1].position, radius, (0, 0), cyclic) {
            Some(c) => near(segments, segments[w.0][w.1].position, radius, c) && !before(w, c),
            None => false,
        },
{
    let centre = segments[w.0][w.1].position;
    lemma_relocated(segments, centre, radius, (0, 0), cyclic);
    assert(segments[w.0][w.1].position.within(centre, radius)) by {
        assert(radius * radius > 0) by (nonlinear_arith)
            requires
                radius > 0,
        ;
    }
}

/// Backward offset of the most recent point of `segment`, among its last
/// `tip_ignore + 1`, that continues to `p`.
fn lookback(segment: &Vec<Pose>, light_radius: i64, p: &Pose, tip_ignore: usize) -> (found: Option<
    usize,
>)
    requires
        all_wf(segment@),
        p.wf(),
        0 < light_radius <= RADIUS_MAX,
    ensures
        match found {
            Some(k) => first_bridge(
                segment@,
                light_radius as int,
                *p,
                0,
                window(segment@.len() as int, tip_ignore as int),
            ) == Some(k as int) && k < segment@.len(),
            None => first_bridge(
                segment@,
                light_radius as int,
                *p,
                0,
                window(segment@.len() as int, tip_ignore as int),
            ).is_none(),
        },
{
    let len: usize = segment.len();
    let limit: usize = if tip_ignore < len {
        tip_ignore + 1
    } else {
        len
    };
    let mut k: usize = 0;
    while k < limit
        invariant
            k <= limit <= len,
            len == segment@.len(),
            limit == window(len as int, tip_ignore as int),
            all_wf(segment@),
            p.wf(),
            0 < light_radius <= RADIUS_MAX,
            first_bridge(segment@, light_radius as int, *p, 0, limit as int) == first_bridge(
                segment@,
                light_radius as int,
                *p,
                k as int,
                limit as int,
            ),
        decreases limit - k,
    {
        if segment[len - 1 - k].is_continued_by(light_radius, p) {
            return Some(k);
        }
        k += 1;
    }
    None
}

impl Path {
    /// The path through `points`, cut wherever a point does not continue the
    /// segment before it. A point continues a segment where it lies in the
    /// light disc of its last point and faces less than 60 degrees away from
    /// it. A point that fails this may still join the segment behind one of
    /// its last `tip_ignore + 1` points, which removes a short kink.
    pub fn new(points: &[Pose], light_radius: i64, tip_ignore: usize) -> (path: Path)
        requires
            all_wf(points@),
            0 < light_radius <= RADIUS_MAX,
        ensures
            path@ == build(points@, light_radius as int, tip_ignore as int),
            segmented(path@, light_radius as int),
            points@.len() > 0 ==> forall|i: int| 0 <= i < path@.len() ==> (#[trigger] path@[i]).len() > 0,
    {
        let mut done: Vec<Vec<Pose>> = Vec::new();
        let mut current: Vec<Pose> = Vec::new();
        let mut i: usize = 0;
        proof {
            assert(segments_of(done@).push(current@) =~= build(
                points@.take(0),
                light_radius as int,
                tip_ignore as int,
            ));
            lemma_build_segmented(points@.take(0), light_radius as int, tip_ignore as int);
        }
        while i < points.len()
            invariant
                i <= points@.len(),
                all_wf(points@),
                0 < light_radius <= RADIUS_MAX,
                segments_of(done@).push(current@) == build(
                    points@.take(i as int),
                    light_radius as int,
                    tip_ignore as int,
                ),
                segmented(segments_of(done@).push(current@), light_radius as int),
            decreases points@.len() - i,
        {
            let p: Pose = points[i];
            let ghost before = segments_of(done@).push(current@);
            proof {
                assert(before.last() == current@);
                assert(before.drop_last() =~= segments_of(done@));
                assert(all_wf(before[before.len() - 1]));
                assert(points@.take(i + 1).drop_last() =~= points@.take(i as int));
                assert(points@.take(i + 1).last() == p);
                lemma_extend_segmented(before, p, light_radius as int, tip_ignore as int);
            }
            match lookback(&current, light_radius, &p, tip_ignore) {
                Some(k) => {
                    current.truncate(current.len() - k);
                    current.push(p);
                },
                None => {
                    if current.len() == 0 {
                        current.push(p);
                        assert(current@ =~= seq![p]);
                    } else {
                        done.push(current);
                        current = Vec::new();
                        current.push(p);
                        assert(current@ =~= seq![p]);
                        assert(segments_of(done@) =~= before);
                    }
                },
            }
            proof {
                assert(segments_of(done@).push(current@) =~= extend(
                    before,
                    p,
                    light_radius as int,
                    tip_ignore as int,
                ));
            }
            i += 1;
        }
        proof {
            assert(points@.take(i as int) =~= points@);
            lemma_build_segmented(points@, light_radius as int, tip_ignore as int);
        }
        done.push(current);
        let path = Path(done);
        proof {
            assert(path@ =~= build(points@, light_radius as int, tip_ignore as int));
        }
        path
    }

    /// The waypoints of segment `i.0` from waypoint `i.1` on.
    pub fn slice(&self, i: (usize, usize)) -> (waypoints: &[Pose])
        requires
            i.0 < self@.len(),
            i.1 <= self@[i.0 as int].len(),
        ensures
            waypoints@ == self@[i.0 as int].skip(i.1 as int),
    {
        let segment = &self.0[i.0];
        vstd::slice::slice_subrange(segment.as_slice(), i.1, segment.len())
    }

    /// The first waypoint within `radius` of `centre`, in path order from
    /// `(i, j)` on and before `stop`.
    fn scan(&self, centre: &Vector, radius: i64, from: (usize, usize), stop: (usize, usize)) -> (found:
        Option<(usize, usize)>)
        requires
            forall|k: int| 0 <= k < self@.len() ==> all_wf(#[trigger] self@[k]),
            centre.in_range(),
            0 <= radius <= RADIUS_MAX,
        ensures
            match found {
                Some(c) => first_near(
                    self@,
                    *centre,
                    radius as int,
                    from.0 as int,
                    from.1 as int,
                    (stop.0 as int, stop.1 as int),
                ) == Some((c.0 as int, c.1 as int)),
                None => first_near(
                    self@,
                    *centre,
                    radius as int,
                    from.0 as int,
                    from.1 as int,
                    (stop.0 as int, stop.1 as int),
                ).is_none(),
            },
    {
        let ghost end = (stop.0 as int, stop.1 as int);
        let mut i: usize = from.0;
        let mut j: usize = from.1;
        while i < self.0.len() && (i < stop.0 || (i == stop.0 && j < stop.1))
            invariant
                forall|k: int| 0 <= k < self@.len() ==> all_wf(#[trigger] self@[k]),
                centre.in_range(),
                0 <= radius <= RADIUS_MAX,
                end == (stop.0 as int, stop.1 as int),
                first_near(self@, *centre, radius as int, from.0 as int, from.1 as int, end)
                    == first_near(self@, *centre, radius as int, i as int, j as int, end),
            decreases self@.len() - i, (if i < self@.len() {
                    self@[i as int].len() - j
                } else {
                    0
                }),
        {
            let segment = &self.0[i];
            assert(segment@ == self@[i as int]);
            if j >= segment.len() {
                i += 1;
                j = 0;
            } else {
                assert(all_wf(self@[i as int]));
                if segment[j].position.is_within(centre, radius) {
                    return Some((i, j));
                }
                j += 1;
            }
        }
        None
    }

    /// Searches the path for the robot: returns the first waypoint within
    /// the search radius of the robot's position, going from the cursor
    /// `config.index` to the end of the path and, on a cyclic path, on from
    /// its beginning up to the cursor. `None` where there is no such waypoint.
    ///
    /// This walks the whole path in the worst case.
    pub fn relocate(&self, config: RelocateConfig) -> (found: Option<(usize, usize)>)
        requires
            forall|k: int| 0 <= k < self@.len() ==> all_wf(#[trigger] self@[k]),
            config.pose.position.in_range(),
            0 <= config.search_radius <= RADIUS_MAX,
        ensures
            match found {
                Some(c) => relocated(
                    self@,
                    config.pose.position,
                    config.search_radius as int,
                    (config.index.0 as int, config.index.1 as int),
                    config.cyclic,
                ) == Some((c.0 as int, c.1 as int)) && on_path(self@, (c.0 as int, c.1 as int)),
                None => relocated(
                    self@,
                    config.pose.position,
                    config.search_radius as int,
                    (config.index.0 as int, config.index.1 as int),
                    config.cyclic,
                ).is_none(),
            },
    {
        proof {
            lemma_relocated(
                self@,
                config.pose.position,
                config.search_radius as int,
                (config.index.0 as int, config.index.1 as int),
                config.cyclic,
            );
        }
        let end: (usize, usize) = (self.0.len(), 0);
        match self.scan(&config.pose.position, config.search_radius, config.index, end) {
            Some(c) => Some(c),
            None => {
                if config.cyclic {
                    self.scan(&config.pose.position, config.search_radius, (0, 0), config.index)
                } else {
                    None
                }
            },
        }
    }

    /// The waypoints of all segments, in order.
    pub fn flatten(&self) -> (points: Vec<Pose>)
        ensures
            points@ == flatten(self@),
    {
        let mut points: Vec<Pose> = Vec::new();
        let mut i: usize = 0;
        proof {
            assert(self@.take(0) =~= Seq::<Seq<Pose>>::empty());
        }
        while i < self.0.len()
            invariant
                i <= self.0@.len(),
                points@ == flatten(self@.take(i as int)),
            decreases self.0@.len() - i,
        {
            let segment = &self.0[i];
            let ghost front = points@;
            let mut j: usize = 0;
            while j < segment.len()
                invariant
                    j <= segment@.len(),
                    points@ == front + segment@.take(j as int),
                decreases segment@.len() - j,
            {
                points.push(segment[j]);
                proof {
                    assert(segment@.take(j + 1) =~= segment@.take(j as int).push(segment@[j as int]));
                    assert(points@ =~= front + segment@.take(j + 1));
                }
                j += 1;
            }
            proof {
                assert(segment@.take(j as int) =~= segment@);
                assert(self@.take(i + 1).drop_last() =~= self@.take(i as int));
                assert(self@.take(i + 1).last() == segment@);
            }
            i += 1;
        }
        proof {
            assert(self@.take(i as int) =~= self@);
        }
        points
    }
}

} // verus!
