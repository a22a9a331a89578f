//! Rendering a multitrack project as an MLT XML document.
//!
//! The project is described to `melt` as MLT XML: one producer per media
//! clip, one playlist per audible track, and a tractor that stacks the
//! playlists, mixing their audio and compositing their video.  Planning
//! decides which tracks and clips take part and in which order; the
//! document is then written from the placed clips.

use vstd::prelude::*;
use crate::text::{chars_of, decimal, decimal_i64, decimal_int, decimal_u128, decimal_usize, push_char, push_str};


verus! {

/// A clip of the project as the render planner sees it: its start on the
/// timeline, given as a key whose integer order is the order of the start
/// times, and the media file it plays, if any.
pub struct ClipSource {
    pub start_key: i64,
    pub file_path: Option<String>,
}

/// A track of the project.
pub struct TrackSource {
    pub muted: bool,
    pub clips: Vec<ClipSource>,
}

/// A track that takes part in the render: its index in the project and the
/// indices of its media clips in timeline order.
pub struct PlannedTrack {
    pub track: usize,
    pub clips: Vec<usize>,
}

/// Whether clip `a` comes before clip `b` on the timeline: by start, and
/// by position in the track among clips that start together.
pub open spec fn clip_before(clips: Seq<ClipSource>, a: int, b: int) -> bool {
    ||| clips[a].start_key < clips[b].start_key
    ||| clips[a].start_key == clips[b].start_key && a < b
}

/// Whether clip `i` has a media file.
pub open spec fn has_media(clips: Seq<ClipSource>, i: int) -> bool {
    0 <= i < clips.len() && clips[i].file_path is Some
}

/// `order` lists exactly the media clips of `clips`, in timeline order
/// (a stable sort by start of the clips that have a media file).
pub open spec fn is_timeline_order(clips: Seq<ClipSource>, order: Seq<usize>) -> bool {
    &&& forall|j: int| 0 <= j < order.len() ==> has_media(clips, #[trigger] order[j] as int)
    &&& forall|i: int| has_media(clips, i) ==> #[trigger] order.contains(i as usize)
    &&& forall|j: int, l: int|
        0 <= j < l < order.len() ==> clip_before(clips, #[trigger] order[j] as int, #[trigger] order[l] as int)
}

/// Whether a track takes part in the render: it is not muted and has at
/// least one clip with a media file.
pub open spec fn is_playable(t: TrackSource) -> bool {
    !t.muted && exists|i: int| has_media(t.clips@, i)
}

/// Indices of the playable tracks among the first `n`, in order.
pub open spec fn playable_tracks(tracks: Seq<TrackSource>, n: int) -> Seq<usize>
    decreases n,
{
    if n <= 0 {
        Seq::empty()
    } else if is_playable(tracks[n - 1]) {
        playable_tracks(tracks, n - 1).push((n - 1) as usize)
    } else {
        playable_tracks(tracks, n - 1)
    }
}

/// What the render plan of `tracks` is: one entry per playable track, in
/// track order, each listing its media clips in timeline order.
pub open spec fn is_render_plan(tracks: Seq<TrackSource>, plan: Seq<PlannedTrack>) -> bool {
    let ids = playable_tracks(tracks, tracks.len() as int);
    &&& plan.len() == ids.len()
    &&& forall|k: int| 0 <= k < plan.len() ==> (#[trigger] plan[k]).track == ids[k]
    &&& forall|k: int|
        0 <= k < plan.len() ==> is_timeline_order(
            tracks[(#[trigger] plan[k]).track as int].clips@,
            plan[k].clips@,
        )
}

proof fn lemma_playable_tracks(tracks: Seq<TrackSource>, n: int)
    requires
        0 <= n <= tracks.len(),
        tracks.len() <= usize::MAX,
    ensures
        forall|k: int| 0 <= k < playable_tracks(tracks, n).len() ==> {
            let t = #[trigger] playable_tracks(tracks, n)[k];
            t < n && is_playable(tracks[t as int])
        },
        forall|k: int, l: int|
            0 <= k < l < playable_tracks(tracks, n).len() ==> #[trigger] playable_tracks(tracks, n)[k]
                < #[trigger] playable_tracks(tracks, n)[l],
        forall|t: int| 0 <= t < n && is_playable(tracks[t]) ==> #[trigger] playable_tracks(tracks, n).contains(t as usize),
    decreases n,
{
    if n > 0 {
        lemma_playable_tracks(tracks, n - 1);
        let prev = playable_tracks(tracks, n - 1);
        if is_playable(tracks[n - 1]) {
            assert(playable_tracks(tracks, n) == prev.push((n - 1) as usize));
            assert forall|t: int| 0 <= t < n && is_playable(tracks[t]) implies #[trigger] playable_tracks(tracks, n).contains(t as usize) by {
                if t == n - 1 {
                    assert(playable_tracks(tracks, n)[prev.len() as int] == t as usize);
                } else {
                    assert(prev.contains(t as usize));
                    let q = choose|q: int| 0 <= q < prev.len() && prev[q] == t as usize;
                    assert(playable_tracks(tracks, n)[q] == t as usize);
                }
            }
        }
    }
}

/// The render plan takes every playable track once, in track order, and
/// no other: no muted track and no track without a media clip is rendered,
/// and every rendered track has at least one clip, each with a media file
/// and listed once.
pub proof fn lemma_render_plan_tracks(tracks: Seq<TrackSource>, plan: Seq<PlannedTrack>)
    requires
        tracks.len() <= usize::MAX,
        is_render_plan(tracks, plan),
    ensures
        forall|k: int| 0 <= k < plan.len() ==> !tracks[(#[trigger] plan[k]).track as int].muted && plan[k].clips@.len() > 0,
        forall|k: int, l: int| 0 <= k < l < plan.len() ==> (#[trigger] plan[k]).track < (#[trigger] plan[l]).track,
        forall|t: int| 0 <= t < tracks.len() && is_playable(tracks[t]) ==> exists|k: int| 0 <= k < plan.len() && (#[trigger] plan[k]).track == t,
        forall|k: int, j: int, l: int|
            0 <= k < plan.len() && 0 <= j < l < plan[k].clips@.len() ==> #[trigger] plan[k].clips@[j] != #[trigger] plan[k].clips@[l],
{
    lemma_playable_tracks(tracks, tracks.len() as int);
    let ids = playable_tracks(tracks, tracks.len() as int);
    assert forall|k: int| 0 <= k < plan.len() implies !tracks[(#[trigger] plan[k]).track as int].muted && plan[k].clips@.len() > 0 by {
        let t = plan[k].track as int;
        assert(ids[k] == plan[k].track);
        assert(is_playable(tracks[t]));
        let i = choose|i: int| has_media(tracks[t].clips@, i);
        assert(plan[k].clips@.contains(i as usize));
    }
    assert forall|t: int| 0 <= t < tracks.len() && is_playable(tracks[t]) implies exists|k: int| 0 <= k < plan.len() && (#[trigger] plan[k]).track == t by {
        assert(ids.contains(t as usize));
        let k = choose|k: int| 0 <= k < ids.len() && ids[k] == t as usize;
        assert(plan[k].track == ids[k]);
        assert(plan[k].track == t);
    }
    assert forall|k: int, l: int| 0 <= k < l < plan.len() implies (#[trigger] plan[k]).track < (#[trigger] plan[l]).track by {
        assert(ids[k] == plan[k].track && ids[l] == plan[l].track);
    }
    assert forall|k: int, j: int, l: int|
        0 <= k < plan.len() && 0 <= j < l < plan[k].clips@.len() implies #[trigger] plan[k].clips@[j] != #[trigger] plan[k].clips@[l] by {
        let cl = tracks[plan[k].track as int].clips@;
        assert(clip_before(cl, plan[k].clips@[j] as int, plan[k].clips@[l] as int));
    }
}

/// Whether `o` lists indices strictly in timeline order.
pub open spec fn is_sorted_by_start(clips: Seq<ClipSource>, o: Seq<usize>) -> bool {
    forall|j: int, l: int| 0 <= j < l < o.len() ==> clip_before(clips, #[trigger] o[j] as int, #[trigger] o[l] as int)
}

proof fn lemma_sorted_unique(clips: Seq<ClipSource>, o1: Seq<usize>, o2: Seq<usize>)
    requires
        is_sorted_by_start(clips, o1),
        is_sorted_by_start(clips, o2),
        forall|x: usize| o1.contains(x) <==> o2.contains(x),
    ensures
        o1 == o2,
    decreases o1.len(),
{
    if o1.len() == 0 {
        if o2.len() > 0 {
            assert(o2.contains(o2[0]));
        }
        assert(o1 =~= o2);
    } else {
        assert(o1.contains(o1[0]));
        assert(o2.len() > 0);
        assert(o2.contains(o2[0]));
        let q = choose|q: int| 0 <= q < o1.len() && o1[q] == o2[0];
        let r = choose|r: int| 0 <= r < o2.len() && o2[r] == o1[0];
        if q > 0 && r > 0 {
            assert(clip_before(clips, o1[0] as int, o1[q] as int));
            assert(clip_before(clips, o2[0] as int, o2[r] as int));
        }
        assert(o1[0] == o2[0]);
        let d1 = o1.drop_first();
        let d2 = o2.drop_first();
        assert forall|x: usize| d1.contains(x) <==> d2.contains(x) by {
            if d1.contains(x) {
                let i = choose|i: int| 0 <= i < d1.len() && d1[i] == x;
                assert(o1[i + 1] == x);
                assert(clip_before(clips, o1[0] as int, o1[i + 1] as int));
                assert(o2.contains(x));
                let j = choose|j: int| 0 <= j < o2.len() && o2[j] == x;
                assert(j != 0);
                assert(d2[j - 1] == x);
            }
            if d2.contains(x) {
                let i = choose|i: int| 0 <= i < d2.len() && d2[i] == x;
                assert(o2[i + 1] == x);
                assert(clip_before(clips, o2[0] as int, o2[i + 1] as int));
                assert(o1.contains(x));
                let j = choose|j: int| 0 <= j < o1.len() && o1[j] == x;
                assert(j != 0);
                assert(d1[j - 1] == x);
            }
        }
        assert(is_sorted_by_start(clips, d1)) by {
            assert forall|j: int, l: int| 0 <= j < l < d1.len() implies clip_before(clips, #[trigger] d1[j] as int, #[trigger] d1[l] as int) by {
                assert(d1[j] == o1[j + 1] && d1[l] == o1[l + 1]);
            }
        }
        assert(is_sorted_by_start(clips, d2)) by {
            assert forall|j: int, l: int| 0 <= j < l < d2.len() implies clip_before(clips, #[trigger] d2[j] as int, #[trigger] d2[l] as int) by {
                assert(d2[j] == o2[j + 1] && d2[l] == o2[l + 1]);
            }
        }
        lemma_sorted_unique(clips, d1, d2);
        assert(o1 =~= seq![o1[0]] + d1);
        assert(o2 =~= seq![o2[0]] + d2);
    }
}

/// A track has one timeline order: two lists that are both in timeline
/// order are the same list.
pub proof fn lemma_timeline_order_unique(clips: Seq<ClipSource>, o1: Seq<usize>, o2: Seq<usize>)
    requires
        is_timeline_order(clips, o1),
        is_timeline_order(clips, o2),
    ensures
        o1 == o2,
{
    assert forall|x: usize| o1.contains(x) <==> o2.contains(x) by {
        if o1.contains(x) {
            let i = choose|i: int| 0 <= i < o1.len() && o1[i] == x;
            assert(has_media(clips, o1[i] as int));
            assert(o2.contains((x as int) as usize));
        }
        if o2.contains(x) {
            let i = choose|i: int| 0 <= i < o2.len() && o2[i] == x;
            assert(has_media(clips, o2[i] as int));
            assert(o1.contains((x as int) as usize));
        }
    }
    lemma_sorted_unique(clips, o1, o2);
}

/// A project has one render plan.
pub proof fn lemma_render_plan_unique(tracks: Seq<TrackSource>, p1: Seq<PlannedTrack>, p2: Seq<PlannedTrack>)
    requires
        is_render_plan(tracks, p1),
        is_render_plan(tracks, p2),
    ensures
        p1.len() == p2.len(),
        forall|k: int| 0 <= k < p1.len() ==> #[trigger] p1[k].track == p2[k].track && p1[k].clips@ == p2[k].clips@,
{
    assert forall|k: int| 0 <= k < p1.len() implies #[trigger] p1[k].track == p2[k].track && p1[k].clips@ == p2[k].clips@ by {
        assert(p1[k].track == playable_tracks(tracks, tracks.len() as int)[k]);
        assert(p2[k].track == playable_tracks(tracks, tracks.len() as int)[k]);
        lemma_timeline_order_unique(tracks[p1[k].track as int].clips@, p1[k].clips@, p2[k].clips@);
    }
}

/// Track or clip number `x` once an item is inserted at `m`.
pub open spec fn shift_index(x: usize, m: int) -> usize {
    if x >= m { (x + 1) as usize } else { x }
}

proof fn lemma_playable_tracks_insert(t1: Seq<TrackSource>, m: int, extra: TrackSource, n: int)
    requires
        0 <= m <= t1.len(),
        t1.len() < usize::MAX,
        !is_playable(extra),
        0 <= n <= t1.len() + 1,
    ensures
        n <= m ==> playable_tracks(t1.insert(m, extra), n) == playable_tracks(t1, n),
        n > m ==> playable_tracks(t1.insert(m, extra), n) == playable_tracks(t1, n - 1).map_values(
            |x: usize| shift_index(x, m),
        ),
    decreases n,
{
    let t2 = t1.insert(m, extra);
    if n > 0 {
        lemma_playable_tracks_insert(t1, m, extra, n - 1);
        if n <= m {
            assert(t2[n - 1] == t1[n - 1]);
        } else if n == m + 1 {
            assert(t2[m] == extra);
            lemma_playable_tracks(t1, m);
            assert(playable_tracks(t1, m).map_values(|x: usize| shift_index(x, m)) =~= playable_tracks(t1, m));
        } else {
            assert(t2[n - 1] == t1[n - 2]);
            let prev = playable_tracks(t1, n - 2);
            if is_playable(t1[n - 2]) {
                assert(playable_tracks(t1, n - 1).map_values(|x: usize| shift_index(x, m)) =~= prev.map_values(
                    |x: usize| shift_index(x, m),
                ).push((n - 1) as usize));
            }
        }
    }
}

/// Adding a track that is muted, or that has no clip with a media file,
/// anywhere in a project changes no render decision: the plan of the new
/// project is the plan of the old one, with the tracks after the added one
/// renumbered, each listing the same clips in the same order.
pub proof fn lemma_silent_track_changes_nothing(
    t1: Seq<TrackSource>,
    m: int,
    extra: TrackSource,
    p1: Seq<PlannedTrack>,
    p2: Seq<PlannedTrack>,
)
    requires
        0 <= m <= t1.len(),
        t1.len() < usize::MAX,
        extra.muted || forall|i: int| !has_media(extra.clips@, i),
        is_render_plan(t1, p1),
        is_render_plan(t1.insert(m, extra), p2),
    ensures
        p2.len() == p1.len(),
        forall|k: int|
            0 <= k < p1.len() ==> #[trigger] p2[k].track == shift_index(p1[k].track, m) && p2[k].clips@
                == p1[k].clips@,
{
    let t2 = t1.insert(m, extra);
    lemma_playable_tracks_insert(t1, m, extra, t1.len() + 1 as int);
    lemma_playable_tracks(t1, t1.len() as int);
    assert forall|k: int| 0 <= k < p1.len() implies #[trigger] p2[k].track == shift_index(p1[k].track, m)
        && p2[k].clips@ == p1[k].clips@ by {
        let t = p1[k].track;
        assert(t == playable_tracks(t1, t1.len() as int)[k]);
        assert(p2[k].track == playable_tracks(t2, t2.len() as int)[k]);
        assert(t2[shift_index(t, m) as int] == t1[t as int]);
        lemma_timeline_order_unique(t1[t as int].clips@, p1[k].clips@, p2[k].clips@);
    }
}

proof fn lemma_playable_tracks_same(t1: Seq<TrackSource>, t2: Seq<TrackSource>, n: int)
    requires
        0 <= n <= t1.len(),
        t1.len() == t2.len(),
        forall|i: int| 0 <= i < t1.len() ==> is_playable(#[trigger] t1[i]) == is_playable(t2[i]),
    ensures
        playable_tracks(t1, n) == playable_tracks(t2, n),
    decreases n,
{
    if n > 0 {
        lemma_playable_tracks_same(t1, t2, n - 1);
        assert(is_playable(t1[n - 1]) == is_playable(t2[n - 1]));
    }
}

proof fn lemma_timeline_order_insert(c1: Seq<ClipSource>, m: int, c: ClipSource, o: Seq<usize>)
    requires
        0 <= m <= c1.len(),
        c1.len() < usize::MAX,
        c.file_path is None,
        is_timeline_order(c1, o),
    ensures
        is_timeline_order(c1.insert(m, c), o.map_values(|x: usize| shift_index(x, m))),
{
    let c2 = c1.insert(m, c);
    let o2 = o.map_values(|x: usize| shift_index(x, m));
    assert forall|j: int| 0 <= j < o2.len() implies has_media(c2, #[trigger] o2[j] as int) by {
        assert(has_media(c1, o[j] as int));
        assert(c2[shift_index(o[j], m) as int] == c1[o[j] as int]);
    }
    assert forall|i: int| has_media(c2, i) implies #[trigger] o2.contains(i as usize) by {
        assert(i != m);
        let i1: int = if i > m { i - 1 } else { i };
        assert(c2[i] == c1[i1]);
        assert(has_media(c1, i1));
        assert(o.contains(i1 as usize));
        let q = choose|q: int| 0 <= q < o.len() && o[q] == i1 as usize;
        assert(o2[q] == i as usize);
    }
    assert forall|j: int, l: int| 0 <= j < l < o2.len() implies clip_before(c2, #[trigger] o2[j] as int, #[trigger] o2[l] as int) by {
        assert(clip_before(c1, o[j] as int, o[l] as int));
        assert(has_media(c1, o[j] as int) && has_media(c1, o[l] as int));
        assert(c2[o2[j] as int] == c1[o[j] as int]);
        assert(c2[o2[l] as int] == c1[o[l] as int]);
    }
}

proof fn lemma_media_insert(c1: Seq<ClipSource>, m: int, c: ClipSource)
    requires
        0 <= m <= c1.len(),
        c.file_path is None,
    ensures
        (exists|i: int| has_media(c1, i)) == (exists|i: int| has_media(c1.insert(m, c), i)),
{
    let c2 = c1.insert(m, c);
    if exists|i: int| has_media(c1, i) {
        let i = choose|i: int| has_media(c1, i);
        let i2: int = if i >= m { i + 1 } else { i };
        assert(c2[i2] == c1[i]);
        assert(has_media(c2, i2));
    }
    if exists|i: int| has_media(c2, i) {
        let i = choose|i: int| has_media(c2, i);
        assert(i != m);
        let i1: int = if i > m { i - 1 } else { i };
        assert(c2[i] == c1[i1]);
        assert(has_media(c1, i1));
    }
}

/// Adding a clip without a media file anywhere in a track changes no
/// render decision: the same tracks are rendered, and the added track's
/// clips are the same clips in the same order, the ones after the added
/// clip renumbered.
pub proof fn lemma_clip_without_media_changes_nothing(
    t1: Seq<TrackSource>,
    t2: Seq<TrackSource>,
    tt: int,
    m: int,
    c: ClipSource,
    p1: Seq<PlannedTrack>,
    p2: Seq<PlannedTrack>,
)
    requires
        t1.len() == t2.len(),
        t1.len() <= usize::MAX,
        0 <= tt < t1.len(),
        forall|i: int| 0 <= i < t1.len() && i != tt ==> #[trigger] t2[i] == t1[i],
        t2[tt].muted == t1[tt].muted,
        0 <= m <= t1[tt].clips@.len(),
        t1[tt].clips@.len() < usize::MAX,
        c.file_path is None,
        t2[tt].clips@ == t1[tt].clips@.insert(m, c),
        is_render_plan(t1, p1),
        is_render_plan(t2, p2),
    ensures
        p2.len() == p1.len(),
        forall|k: int| 0 <= k < p1.len() ==> #[trigger] p2[k].track == p1[k].track,
        forall|k: int|
            0 <= k < p1.len() && (#[trigger] p1[k]).track == tt ==> p2[k].clips@ == p1[k].clips@.map_values(
                |x: usize| shift_index(x, m),
            ),
        forall|k: int| 0 <= k < p1.len() && (#[trigger] p1[k]).track != tt ==> p2[k].clips@ == p1[k].clips@,
{
    let c1 = t1[tt].clips@;
    lemma_media_insert(c1, m, c);
    assert(is_playable(t1[tt]) == is_playable(t2[tt]));
    lemma_playable_tracks_same(t1, t2, t1.len() as int);
    assert forall|k: int| 0 <= k < p1.len() implies #[trigger] p2[k].track == p1[k].track by {
        assert(p1[k].track == playable_tracks(t1, t1.len() as int)[k]);
        assert(p2[k].track == playable_tracks(t2, t2.len() as int)[k]);
    }
    lemma_playable_tracks(t1, t1.len() as int);
    assert forall|k: int| 0 <= k < p1.len() && (#[trigger] p1[k]).track == tt implies p2[k].clips@ == p1[k].clips@.map_values(
        |x: usize| shift_index(x, m),
    ) by {
        assert(p2[k].track == p1[k].track);
        lemma_timeline_order_insert(c1, m, c, p1[k].clips@);
        lemma_timeline_order_unique(t2[tt].clips@, p1[k].clips@.map_values(|x: usize| shift_index(x, m)), p2[k].clips@);
    }
    assert forall|k: int| 0 <= k < p1.len() && (#[trigger] p1[k]).track != tt implies p2[k].clips@ == p1[k].clips@ by {
        assert(p2[k].track == p1[k].track);
        assert(p1[k].track == playable_tracks(t1, t1.len() as int)[k]);
        assert(t2[p1[k].track as int] == t1[p1[k].track as int]);
        lemma_timeline_order_unique(t1[p1[k].track as int].clips@, p1[k].clips@, p2[k].clips@);
    }
}

/// `c2` is `c1` with its clips reordered: clip `j` of `c2` is clip
/// `perm[j]` of `c1`, and `perm` is a one-to-one numbering of the clips.
pub open spec fn is_reordering(c1: Seq<ClipSource>, c2: Seq<ClipSource>, perm: Seq<int>) -> bool {
    &&& c2.len() == c1.len()
    &&& perm.len() == c1.len()
    &&& forall|j: int| 0 <= j < c2.len() ==> 0 <= #[trigger] perm[j] < c1.len() && c2[j] == c1[perm[j]]
    &&& forall|j: int, l: int| 0 <= j < l < perm.len() ==> #[trigger] perm[j] != #[trigger] perm[l]
    &&& forall|i: int| #![trigger c1[i]] 0 <= i < c1.len() ==> exists|j: int| 0 <= j < perm.len() && #[trigger] perm[j] == i
}

/// No two clips with a media file start at the same time.
pub open spec fn distinct_media_starts(clips: Seq<ClipSource>) -> bool {
    forall|i: int, j: int|
        #[trigger] has_media(clips, i) && #[trigger] has_media(clips, j) && i != j ==> clips[i].start_key
            != clips[j].start_key
}

/// The clips that a planned track plays, in the order it plays them.
pub open spec fn planned_clips(tracks: Seq<TrackSource>, pt: PlannedTrack) -> Seq<ClipSource> {
    pt.clips@.map_values(|x: usize| tracks[pt.track as int].clips@[x as int])
}

proof fn lemma_reordering_media(c1: Seq<ClipSource>, c2: Seq<ClipSource>, perm: Seq<int>)
    requires
        is_reordering(c1, c2, perm),
    ensures
        (exists|i: int| has_media(c1, i)) == (exists|i: int| has_media(c2, i)),
{
    if exists|i: int| has_media(c1, i) {
        let i = choose|i: int| has_media(c1, i);
        let j = choose|j: int| 0 <= j < perm.len() && #[trigger] perm[j] == i;
        assert(has_media(c2, j));
    }
    if exists|j: int| has_media(c2, j) {
        let j = choose|j: int| has_media(c2, j);
        assert(has_media(c1, perm[j]));
    }
}

proof fn lemma_timeline_order_reordered(c1: Seq<ClipSource>, c2: Seq<ClipSource>, perm: Seq<int>, o2: Seq<usize>)
    requires
        c1.len() <= usize::MAX,
        is_reordering(c1, c2, perm),
        distinct_media_starts(c1),
        is_timeline_order(c2, o2),
    ensures
        is_timeline_order(c1, o2.map_values(|x: usize| perm[x as int] as usize)),
{
    let o1 = o2.map_values(|x: usize| perm[x as int] as usize);
    assert forall|j: int| 0 <= j < o1.len() implies has_media(c1, #[trigger] o1[j] as int) by {
        assert(has_media(c2, o2[j] as int));
        assert(c2[o2[j] as int] == c1[perm[o2[j] as int]]);
    }
    assert forall|i: int| has_media(c1, i) implies #[trigger] o1.contains(i as usize) by {
        let j = choose|j: int| 0 <= j < perm.len() && #[trigger] perm[j] == i;
        assert(has_media(c2, j));
        assert(o2.contains(j as usize));
        let q = choose|q: int| 0 <= q < o2.len() && o2[q] == j as usize;
        assert(o1[q] == i as usize);
    }
    assert forall|j: int, l: int| 0 <= j < l < o1.len() implies clip_before(c1, #[trigger] o1[j] as int, #[trigger] o1[l] as int) by {
        let a = o2[j] as int;
        let b = o2[l] as int;
        assert(clip_before(c2, a, b));
        assert(has_media(c2, a) && has_media(c2, b));
        assert(a != b);
        if a < b {
            assert(perm[a] != perm[b]);
        } else {
            assert(perm[b] != perm[a]);
        }
        assert(has_media(c1, perm[a]) && has_media(c1, perm[b]));
        assert(c1[perm[a]].start_key != c1[perm[b]].start_key);
    }
}

/// Where no two media clips of an audible track start together, the order
/// in which a track lists its clips does not matter: reordering the clips
/// of any tracks renders the same tracks, each playing the same clips in
/// the same order.
pub proof fn lemma_clip_order_does_not_matter(
    t1: Seq<TrackSource>,
    t2: Seq<TrackSource>,
    perms: Seq<Seq<int>>,
    p1: Seq<PlannedTrack>,
    p2: Seq<PlannedTrack>,
)
    requires
        t1.len() == t2.len(),
        t1.len() <= usize::MAX,
        perms.len() == t1.len(),
        forall|i: int| 0 <= i < t1.len() ==> (#[trigger] t1[i]).clips@.len() <= usize::MAX,
        forall|i: int|
            0 <= i < t1.len() ==> (#[trigger] t2[i]).muted == t1[i].muted && is_reordering(
                t1[i].clips@,
                t2[i].clips@,
                perms[i],
            ),
        forall|i: int| 0 <= i < t1.len() && !(#[trigger] t1[i]).muted ==> distinct_media_starts(t1[i].clips@),
        is_render_plan(t1, p1),
        is_render_plan(t2, p2),
    ensures
        p2.len() == p1.len(),
        forall|k: int|
            0 <= k < p1.len() ==> #[trigger] p2[k].track == p1[k].track && planned_clips(t2, p2[k])
                == planned_clips(t1, p1[k]),
{
    assert forall|i: int| 0 <= i < t1.len() implies is_playable(#[trigger] t1[i]) == is_playable(t2[i]) by {
        lemma_reordering_media(t1[i].clips@, t2[i].clips@, perms[i]);
    }
    lemma_playable_tracks_same(t1, t2, t1.len() as int);
    lemma_playable_tracks(t1, t1.len() as int);
    assert forall|k: int| 0 <= k < p1.len() implies #[trigger] p2[k].track == p1[k].track && planned_clips(t2, p2[k])
        == planned_clips(t1, p1[k]) by {
        let t = p1[k].track as int;
        assert(p1[k].track == playable_tracks(t1, t1.len() as int)[k]);
        assert(p2[k].track == playable_tracks(t2, t2.len() as int)[k]);
        assert(is_playable(t1[t]));
        let c1 = t1[t].clips@;
        let c2 = t2[t].clips@;
        let perm = perms[t];
        let o2 = p2[k].clips@;
        lemma_timeline_order_reordered(c1, c2, perm, o2);
        let o1 = o2.map_values(|x: usize| perm[x as int] as usize);
        lemma_timeline_order_unique(c1, o1, p1[k].clips@);
        assert forall|j: int| 0 <= j < o2.len() implies c2[#[trigger] o2[j] as int] == c1[o1[j] as int] by {
            assert(has_media(c2, o2[j] as int));
        }
        assert(planned_clips(t2, p2[k]) =~= planned_clips(t1, p1[k]));
    }
}

/// The media clips of one track in timeline order.
pub fn timeline_order(clips: &Vec<ClipSource>) -> (order: Vec<usize>)
    ensures
        is_timeline_order(clips@, order@),
{
    let mut order: Vec<usize> = Vec::new();
    let mut i: usize = 0;
    while i < clips.len()
        invariant
            i <= clips.len(),
            forall|j: int| 0 <= j < order.len() ==> has_media(clips@, #[trigger] order@[j] as int) && order@[j] < i,
            forall|m: int| 0 <= m < i && has_media(clips@, m) ==> #[trigger] order@.contains(m as usize),
            forall|j: int, l: int|
                0 <= j < l < order.len() ==> clip_before(clips@, #[trigger] order@[j] as int, #[trigger] order@[l] as int),
        decreases clips.len() - i,
    {
        if clips[i].file_path.is_some() {
            let key = clips[i].start_key;
            // first position whose clip starts after clip `i`
            let mut p: usize = 0;
            while p < order.len() && clips[order[p]].start_key <= key
                invariant
                    p <= order.len(),
                    i < clips.len(),
                    key == clips@[i as int].start_key,
                    forall|j: int| 0 <= j < order.len() ==> has_media(clips@, #[trigger] order@[j] as int) && order@[j] < i,
                    forall|j: int| 0 <= j < p ==> clips@[#[trigger] order@[j] as int].start_key <= key,
                decreases order.len() - p,
            {
                p = p + 1;
            }
            let ghost old_order = order@;
            proof {
                // keys after position p exceed `key`, by sortedness
                assert forall|j: int| p <= j < old_order.len() implies clips@[#[trigger] old_order[j] as int].start_key > key by {
                    assert(clips@[old_order[p as int] as int].start_key > key);
                    if j > p {
                        assert(clip_before(clips@, old_order[p as int] as int, old_order[j] as int));
                    }
                }
            }
            order.insert(p, i);
            proof {
                assert forall|j: int| 0 <= j < order.len() implies has_media(clips@, #[trigger] order@[j] as int) && order@[j] < i + 1 by {
                    if j < p {
                        assert(order@[j] == old_order[j]);
                    } else if j > p {
                        assert(order@[j] == old_order[j - 1]);
                    }
                }
                assert forall|m: int| 0 <= m < i + 1 && has_media(clips@, m) implies #[trigger] order@.contains(m as usize) by {
                    if m == i {
                        assert(order@[p as int] == i);
                    } else {
                        assert(old_order.contains(m as usize));
                        let q = choose|q: int| 0 <= q < old_order.len() && old_order[q] == m as usize;
                        if q < p {
                            assert(order@[q] == m as usize);
                        } else {
                            assert(order@[q + 1] == m as usize);
                        }
                    }
                }
                assert forall|j: int, l: int|
                    0 <= j < l < order.len() implies clip_before(clips@, #[trigger] order@[j] as int, #[trigger] order@[l] as int) by {
                    if l < p {
                        assert(order@[j] == old_order[j] && order@[l] == old_order[l]);
                    } else if l == p {
                        assert(order@[j] == old_order[j]);
                    } else if j == p {
                        assert(order@[l] == old_order[l - 1]);
                    } else if j < p {
                        assert(order@[j] == old_order[j] && order@[l] == old_order[l - 1]);
                    } else {
                        assert(order@[j] == old_order[j - 1] && order@[l] == old_order[l - 1]);
                    }
                }
            }
        }
        i = i + 1;
    }
    order
}


/// Decides which tracks and clips take part in the render and in which
/// order: muted tracks and tracks without media clips are left out, clips
/// without a media file are left out, and each track's clips are ordered
/// by their start on the timeline.
pub fn plan_render(tracks: &Vec<TrackSource>) -> (plan: Vec<PlannedTrack>)
    ensures
        is_render_plan(tracks@, plan@),
{
    let mut plan: Vec<PlannedTrack> = Vec::new();
    let mut t: usize = 0;
    while t < tracks.len()
        invariant
            t <= tracks.len(),
            plan.len() == playable_tracks(tracks@, t as int).len(),
            forall|k: int| 0 <= k < plan.len() ==> (#[trigger] plan@[k]).track == playable_tracks(tracks@, t as int)[k],
            forall|k: int|
                0 <= k < plan.len() ==> (#[trigger] plan@[k]).track < tracks.len() && is_timeline_order(
                    tracks@[plan@[k].track as int].clips@,
                    plan@[k].clips@,
                ),
        decreases tracks.len() - t,
    {
        let track = &tracks[t];
        if !track.muted {
            let order = timeline_order(&track.clips);
            if order.len() > 0 {
                proof {
                    assert(has_media(track.clips@, order@[0] as int));
                    assert(is_playable(tracks@[t as int]));
                }
                plan.push(PlannedTrack { track: t, clips: order });
                assert(playable_tracks(tracks@, t + 1) == playable_tracks(tracks@, t as int).push(t));
            } else {
                proof {
                    assert forall|i: int| !has_media(track.clips@, i) by {
                        if has_media(track.clips@, i) {
                            assert(order@.contains(i as usize));
                        }
                    }
                    assert(!is_playable(tracks@[t as int]));
                }
            }
        }
        t = t + 1;
    }
    plan
}


// ---------------------------------------------------------------------------
// Escaping

/// The XML text for one character: `&`, `<`, `>` and `"` become entities.
pub open spec fn escape_char(c: char) -> Seq<char> {
    if c == '&' {
        "&amp;"@
    } else if c == '<' {
        "&lt;"@
    } else if c == '>' {
        "&gt;"@
    } else if c == '"' {
        "&quot;"@
    } else {
        seq![c]
    }
}

/// `s` with `&`, `<`, `>` and `"` replaced by their XML entities.
pub open spec fn xml_escaped(s: Seq<char>) -> Seq<char>
    decreases s.len(),
{
    if s.len() == 0 {
        Seq::empty()
    } else {
        xml_escaped(s.drop_last()) + escape_char(s.last())
    }
}

/// Escapes text for use inside an XML element or attribute value.
pub fn xml_escape(s: &str) -> (r: String)
    ensures
        r@ == xml_escaped(s@),
{
    let v = chars_of(s);
    let mut r = String::new();
    let mut i: usize = 0;
    while i < v.len()
        invariant
            i <= v.len(),
            v@ == s@,
            r@ == xml_escaped(s@.take(i as int)),
        decreases v.len() - i,
    {
        let c = v[i];
        if c == '&' {
            push_str(&mut r, "&amp;");
        } else if c == '<' {
            push_str(&mut r, "&lt;");
        } else if c == '>' {
            push_str(&mut r, "&gt;");
        } else if c == '"' {
            push_str(&mut r, "&quot;");
        } else {
            push_char(&mut r, c);
            assert(r@ =~= xml_escaped(s@.take(i as int)) + seq![c]);
        }
        assert(s@.take(i + 1).drop_last() =~= s@.take(i as int));
        i = i + 1;
    }
    assert(s@.take(i as int) =~= s@);
    r
}

/// Reads XML text back: the four entities that escaping writes become the
/// characters they stand for.
pub open spec fn xml_unescaped(s: Seq<char>) -> Seq<char>
    decreases s.len(),
{
    if s.len() == 0 {
        Seq::empty()
    } else if s[0] == '&' && s.len() >= 5 && s.take(5) == "&amp;"@ {
        seq!['&'] + xml_unescaped(s.skip(5))
    } else if s[0] == '&' && s.len() >= 4 && s.take(4) == "&lt;"@ {
        seq!['<'] + xml_unescaped(s.skip(4))
    } else if s[0] == '&' && s.len() >= 4 && s.take(4) == "&gt;"@ {
        seq!['>'] + xml_unescaped(s.skip(4))
    } else if s[0] == '&' && s.len() >= 6 && s.take(6) == "&quot;"@ {
        seq!['"'] + xml_unescaped(s.skip(6))
    } else {
        seq![s[0]] + xml_unescaped(s.drop_first())
    }
}

proof fn lemma_xml_escaped_concat(a: Seq<char>, b: Seq<char>)
    ensures
        xml_escaped(a + b) == xml_escaped(a) + xml_escaped(b),
    decreases b.len(),
{
    if b.len() == 0 {
        assert(a + b =~= a);
        assert(xml_escaped(a) + xml_escaped(b) =~= xml_escaped(a));
    } else {
        assert((a + b).drop_last() =~= a + b.drop_last());
        lemma_xml_escaped_concat(a, b.drop_last());
        assert(xml_escaped(a) + xml_escaped(b.drop_last()) + escape_char(b.last()) =~= xml_escaped(a) + (
        xml_escaped(b.drop_last()) + escape_char(b.last())));
    }
}

/// Escaping loses nothing: reading the escaped text back gives the text.
pub proof fn lemma_xml_escape_round_trip(s: Seq<char>)
    ensures
        xml_unescaped(xml_escaped(s)) == s,
    decreases s.len(),
{
    reveal_strlit("&amp;");
    reveal_strlit("&lt;");
    reveal_strlit("&gt;");
    reveal_strlit("&quot;");
    if s.len() > 0 {
        let c = s[0];
        let rest = s.drop_first();
        assert(s =~= seq![c] + rest);
        lemma_xml_escaped_concat(seq![c], rest);
        assert(seq![c].drop_last() =~= Seq::<char>::empty());
        assert(xml_escaped(seq![c]) == xml_escaped(seq![c].drop_last()) + escape_char(seq![c].last()));
        assert(xml_escaped(Seq::<char>::empty()) == Seq::<char>::empty());
        assert(xml_escaped(seq![c]) =~= escape_char(c));
        let e = escape_char(c) + xml_escaped(rest);
        lemma_xml_escape_round_trip(rest);
        if c == '&' {
            assert(e.take(5) =~= "&amp;"@);
            assert(e.skip(5) =~= xml_escaped(rest));
        } else if c == '<' {
            assert(e.take(4) =~= "&lt;"@);
            assert(e.skip(4) =~= xml_escaped(rest));
            assert(e[1] == 'l');
            assert(e.len() < 5 || e.take(5)[1] != "&amp;"@[1]);
        } else if c == '>' {
            assert(e.take(4) =~= "&gt;"@);
            assert(e.skip(4) =~= xml_escaped(rest));
            assert(e[1] == 'g');
            assert(e.len() < 5 || e.take(5)[1] != "&amp;"@[1]);
            assert(e.take(4)[1] != "&lt;"@[1]);
        } else if c == '"' {
            assert(e.take(6) =~= "&quot;"@);
            assert(e.skip(6) =~= xml_escaped(rest));
            assert(e[1] == 'q');
            assert(e.take(5)[1] != "&amp;"@[1]);
            assert(e.take(4)[1] != "&lt;"@[1]);
            assert(e.take(4)[1] != "&gt;"@[1]);
        } else {
            assert(e[0] == c);
            assert(e.drop_first() =~= xml_escaped(rest));
        }
    }
}

/// Escaped text holds no `<`, `>` or `"`: it cannot end an element, open
/// one, or end an attribute value.
pub proof fn lemma_xml_escaped_is_inert(s: Seq<char>)
    ensures
        forall|i: int| 0 <= i < xml_escaped(s).len() ==> #[trigger] xml_escaped(s)[i] != '<' && xml_escaped(s)[i] != '>'
            && xml_escaped(s)[i] != '"',
    decreases s.len(),
{
    reveal_strlit("&amp;");
    reveal_strlit("&lt;");
    reveal_strlit("&gt;");
    reveal_strlit("&quot;");
    if s.len() > 0 {
        lemma_xml_escaped_is_inert(s.drop_last());
        let pre = xml_escaped(s.drop_last());
        let e = escape_char(s.last());
        assert forall|i: int| 0 <= i < xml_escaped(s).len() implies #[trigger] xml_escaped(s)[i] != '<' && xml_escaped(s)[i] != '>'
            && xml_escaped(s)[i] != '"' by {
            if i < pre.len() {
                assert(xml_escaped(s)[i] == pre[i]);
            } else {
                assert(xml_escaped(s)[i] == e[i - pre.len()]);
            }
        }
    }
}

/// `str::replace`: every occurrence of `pat`, from left to right and
/// without overlap, replaced by `rep`.
pub open spec fn replace_all(s: Seq<char>, pat: Seq<char>, rep: Seq<char>) -> Seq<char>
    decreases s.len(),
{
    if s.len() == 0 {
        Seq::empty()
    } else if pat.len() > 0 && s.len() >= pat.len() && s.take(pat.len() as int) == pat {
        rep + replace_all(s.skip(pat.len() as int), pat, rep)
    } else {
        seq![s[0]] + replace_all(s.drop_first(), pat, rep)
    }
}

/// Reading escaped text back by replacing each entity in turn:
/// `&quot;`, then `&gt;`, then `&lt;`, then `&amp;`.
pub open spec fn xml_unescaped_by_replacing(t: Seq<char>) -> Seq<char> {
    replace_all(
        replace_all(replace_all(replace_all(t, "&quot;"@, seq!['"']), "&gt;"@, seq!['>']), "&lt;"@, seq!['<']),
        "&amp;"@,
        seq!['&'],
    )
}

/// The text of `c` once the first `k` of those replacements are done.
spec fn partly_unescaped_char(k: int, c: char) -> Seq<char> {
    if (k >= 1 && c == '"') || (k >= 2 && c == '>') || (k >= 3 && c == '<') || (k >= 4 && c == '&') {
        seq![c]
    } else {
        escape_char(c)
    }
}

spec fn partly_unescaped(k: int, s: Seq<char>) -> Seq<char>
    decreases s.len(),
{
    if s.len() == 0 {
        Seq::empty()
    } else {
        partly_unescaped_char(k, s[0]) + partly_unescaped(k, s.drop_first())
    }
}

/// The `k`-th replacement: its pattern and its replacement.
spec fn replacement(k: int) -> (Seq<char>, Seq<char>) {
    if k == 0 {
        ("&quot;"@, seq!['"'])
    } else if k == 1 {
        ("&gt;"@, seq!['>'])
    } else if k == 2 {
        ("&lt;"@, seq!['<'])
    } else {
        ("&amp;"@, seq!['&'])
    }
}

proof fn lemma_reveal_entities()
    ensures
        "&amp;"@ == seq!['&', 'a', 'm', 'p', ';'],
        "&lt;"@ == seq!['&', 'l', 't', ';'],
        "&gt;"@ == seq!['&', 'g', 't', ';'],
        "&quot;"@ == seq!['&', 'q', 'u', 'o', 't', ';'],
{
    reveal_strlit("&amp;");
    reveal_strlit("&lt;");
    reveal_strlit("&gt;");
    reveal_strlit("&quot;");
    assert("&amp;"@ =~= seq!['&', 'a', 'm', 'p', ';']);
    assert("&lt;"@ =~= seq!['&', 'l', 't', ';']);
    assert("&gt;"@ =~= seq!['&', 'g', 't', ';']);
    assert("&quot;"@ =~= seq!['&', 'q', 'u', 'o', 't', ';']);
}

/// A piece whose only `&` starts it, and differs from `pat` right after,
/// passes through replacing `pat` unchanged.
proof fn lemma_replace_skips(u: Seq<char>, x: Seq<char>, pat: Seq<char>, rep: Seq<char>)
    requires
        pat.len() >= 2,
        pat[0] == '&',
        forall|i: int| 0 <= i < u.len() && #[trigger] u[i] == '&' ==> i == 0 && u.len() >= 2 && u[1] != pat[1],
    ensures
        replace_all(u + x, pat, rep) == u + replace_all(x, pat, rep),
    decreases u.len(),
{
    if u.len() > 0 {
        let ux = u + x;
        assert(ux[0] == u[0]);
        if ux.len() >= pat.len() && ux.take(pat.len() as int) == pat {
            assert(ux.take(pat.len() as int)[0] == ux[0]);
            assert(ux.take(pat.len() as int)[1] == ux[1]);
            assert(ux[1] == u[1]);
        }
        assert(ux.drop_first() =~= u.drop_first() + x);
        lemma_replace_skips(u.drop_first(), x, pat, rep);
        assert(seq![u[0]] + (u.drop_first() + replace_all(x, pat, rep)) =~= u + replace_all(x, pat, rep));
    }
}

proof fn lemma_replacement_step(k: int, s: Seq<char>)
    requires
        0 <= k < 4,
    ensures
        replace_all(partly_unescaped(k, s), replacement(k).0, replacement(k).1) == partly_unescaped(k + 1, s),
    decreases s.len(),
{
    lemma_reveal_entities();
    if s.len() > 0 {
        let c = s[0];
        let u = partly_unescaped_char(k, c);
        let x = partly_unescaped(k, s.drop_first());
        let pat = replacement(k).0;
        let rep = replacement(k).1;
        lemma_replacement_step(k, s.drop_first());
        assert(partly_unescaped(k, s) == u + x);
        assert(partly_unescaped(k + 1, s) == partly_unescaped_char(k + 1, c) + partly_unescaped(k + 1, s.drop_first()));
        if u == pat {
            let ux = u + x;
            assert(ux.take(pat.len() as int) =~= pat);
            assert(ux.skip(pat.len() as int) =~= x);
            assert(partly_unescaped_char(k + 1, c) == rep);
        } else {
            assert(partly_unescaped_char(k + 1, c) == u);
            assert forall|i: int| 0 <= i < u.len() && #[trigger] u[i] == '&' implies i == 0 && u.len() >= 2 && u[1] != pat[1] by {
            }
            lemma_replace_skips(u, x, pat, rep);
        }
    }
}

proof fn lemma_partly_unescaped_ends(s: Seq<char>)
    ensures
        partly_unescaped(0, s) == xml_escaped(s),
        partly_unescaped(4, s) == s,
    decreases s.len(),
{
    if s.len() > 0 {
        lemma_partly_unescaped_ends(s.drop_first());
        assert(s =~= seq![s[0]] + s.drop_first());
        lemma_xml_escaped_concat(seq![s[0]], s.drop_first());
        assert(xml_escaped(seq![s[0]]) == xml_escaped(seq![s[0]].drop_last()) + escape_char(seq![s[0]].last()));
        assert(xml_escaped(Seq::<char>::empty()) == Seq::<char>::empty());
        assert(xml_escaped(seq![s[0]]) =~= escape_char(s[0]));
        assert(partly_unescaped(4, s) =~= seq![s[0]] + s.drop_first());
    }
}

/// Replacing the four entities in turn (`&quot;`, `&gt;`, `&lt;`, then
/// `&amp;`) also reads escaped text back to the text.
pub proof fn lemma_xml_escape_replace_round_trip(s: Seq<char>)
    ensures
        xml_unescaped_by_replacing(xml_escaped(s)) == s,
{
    lemma_partly_unescaped_ends(s);
    lemma_replacement_step(0, s);
    lemma_replacement_step(1, s);
    lemma_replacement_step(2, s);
    lemma_replacement_step(3, s);
    lemma_reveal_entities();
}

// ---------------------------------------------------------------------------
// The document

/// A media clip placed on a playlist: the file it plays, the frames of
/// silence before it, its first frame in the media and its length in frames.
pub struct PlacedClip {
    pub resource: String,
    pub blank_frames: i64,
    pub in_frame: i64,
    pub duration_frames: i64,
}

/// Why no MLT document could be written.
#[derive(Debug, Clone, Copy, PartialEq, Eq, Structural)]
pub enum MltError {
    /// No track has a clip with a media file.
    NothingToRender,
}

impl MltError {
    pub fn message(&self) -> (m: String)
        ensures
            m@ == "No clips with media files to render"@,
    {
        String::from_str("No clips with media files to render")
    }
}

/// The last frame of a clip in its media: `in + length - 1`, but never
/// before the first frame.
pub open spec fn out_frame(c: PlacedClip) -> int {
    let last = c.in_frame + c.duration_frames - 1;
    if last >= c.in_frame { last } else { c.in_frame as int }
}

/// A playlist entry plays its clip's frames from `in`: `duration` frames
/// up to and including `in + duration - 1`, and the first frame alone
/// when the clip has no frames.
pub proof fn lemma_entry_covers_clip(n: nat, c: PlacedClip)
    ensures
        c.duration_frames >= 1 ==> out_frame(c) == c.in_frame + c.duration_frames - 1,
        c.duration_frames <= 1 ==> out_frame(c) == c.in_frame,
        out_frame(c) - c.in_frame + 1 == if c.duration_frames >= 1 { c.duration_frames as int } else { 1int },
        entry_xml(n, c) == blank_xml(c) + "    <entry producer=\"producer"@ + decimal(n) + "\" in=\""@
            + decimal_int(c.in_frame as int) + "\" out=\""@ + decimal_int(
            c.in_frame + (if c.duration_frames >= 1 { c.duration_frames - 1 } else { 0int }),
        ) + "\"/>\n"@,
{
}

/// Whether the frame arithmetic of a clip stays within `i64`.
pub open spec fn frames_fit(c: PlacedClip) -> bool {
    &&& i64::MIN <= c.in_frame + c.duration_frames <= i64::MAX
    &&& i64::MIN <= c.in_frame + c.duration_frames - 1
}

/// All clips of all playlists, playlist after playlist.
pub open spec fn all_clips(pls: Seq<Vec<PlacedClip>>) -> Seq<PlacedClip>
    decreases pls.len(),
{
    if pls.len() == 0 {
        Seq::empty()
    } else {
        all_clips(pls.drop_last()) + pls.last()@
    }
}

/// The producer element of the `n`-th clip.
pub open spec fn producer_xml(n: nat, c: PlacedClip) -> Seq<char> {
    "  <producer id=\"producer"@ + decimal(n) + "\">\n    <property name=\"resource\">"@
        + xml_escaped(c.resource@) + "</property>\n  </producer>\n"@
}

/// The blank element that precedes a clip, if it has frames of silence before it.
pub open spec fn blank_xml(c: PlacedClip) -> Seq<char> {
    if c.blank_frames > 0 {
        "    <blank length=\""@ + decimal_int(c.blank_frames as int) + "\"/>\n"@
    } else {
        Seq::empty()
    }
}

/// The playlist entries of the `n`-th clip.
pub open spec fn entry_xml(n: nat, c: PlacedClip) -> Seq<char> {
    blank_xml(c) + "    <entry producer=\"producer"@ + decimal(n) + "\" in=\""@ + decimal_int(
        c.in_frame as int,
    ) + "\" out=\""@ + decimal_int(out_frame(c)) + "\"/>\n"@
}

/// The producers of clips `cs`, numbered from zero.
pub open spec fn producers_xml(cs: Seq<PlacedClip>) -> Seq<char>
    decreases cs.len(),
{
    if cs.len() == 0 {
        Seq::empty()
    } else {
        producers_xml(cs.drop_last()) + producer_xml((cs.len() - 1) as nat, cs.last())
    }
}

/// The entries of clips `cs`, numbered from `base`.
pub open spec fn entries_xml(cs: Seq<PlacedClip>, base: nat) -> Seq<char>
    decreases cs.len(),
{
    if cs.len() == 0 {
        Seq::empty()
    } else {
        entries_xml(cs.drop_last(), base) + entry_xml((base + cs.len() - 1) as nat, cs.last())
    }
}

/// The `p`-th playlist element, whose clips are numbered from `base`.
pub open spec fn playlist_xml(p: nat, cs: Seq<PlacedClip>, base: nat) -> Seq<char> {
    "  <playlist id=\"playlist"@ + decimal(p) + "\">\n"@ + entries_xml(cs, base) + "  </playlist>\n"@
}

/// The playlist elements of all playlists.
pub open spec fn playlists_xml(pls: Seq<Vec<PlacedClip>>) -> Seq<char>
    decreases pls.len(),
{
    if pls.len() == 0 {
        Seq::empty()
    } else {
        playlists_xml(pls.drop_last()) + playlist_xml(
            (pls.len() - 1) as nat,
            pls.last()@,
            all_clips(pls.drop_last()).len(),
        )
    }
}

/// The tractor's track element for the `p`-th playlist.
pub open spec fn track_ref_xml(p: nat) -> Seq<char> {
    "    <track producer=\"playlist"@ + decimal(p) + "\"/>\n"@
}

/// The track elements of the first `n` playlists.
pub open spec fn track_refs_xml(n: nat) -> Seq<char>
    decreases n,
{
    if n == 0 {
        Seq::empty()
    } else {
        track_refs_xml((n - 1) as nat) + track_ref_xml((n - 1) as nat)
    }
}

/// The transitions that mix track `i`'s audio into track 0 and composite
/// its video over it.
pub open spec fn transition_pair_xml(i: nat) -> Seq<char> {
    "    <transition mlt_service=\"mix\" a_track=\"0\" b_track=\""@ + decimal(i)
        + "\" always_active=\"1\" combine=\"1\"/>\n"@
        + "    <transition mlt_service=\"qtblend\" a_track=\"0\" b_track=\""@ + decimal(i) + "\"/>\n"@
}

/// The transitions for tracks 1 up to `n - 1`.
pub open spec fn transitions_xml(n: nat) -> Seq<char>
    decreases n,
{
    if n <= 1 {
        Seq::empty()
    } else {
        transitions_xml((n - 1) as nat) + transition_pair_xml((n - 1) as nat)
    }
}

/// The MLT document for the given playlists.
pub open spec fn mlt_xml(pls: Seq<Vec<PlacedClip>>) -> Seq<char> {
    "<?xml version=\"1.0\" encoding=\"utf-8\"?>\n<mlt>\n"@ + producers_xml(all_clips(pls))
        + playlists_xml(pls) + "  <tractor id=\"tractor0\">\n"@ + track_refs_xml(pls.len())
        + transitions_xml(pls.len()) + "  </tractor>\n</mlt>\n"@
}


fn append_producer(out: &mut String, n: u128, c: &PlacedClip)
    ensures
        final(out)@ == old(out)@ + producer_xml(n as nat, *c),
{
    let ghost start = out@;
    push_str(out, "  <producer id=\"producer");
    let id = decimal_u128(n);
    push_str(out, id.as_str());
    push_str(out, "\">\n    <property name=\"resource\">");
    let res = xml_escape(c.resource.as_str());
    push_str(out, res.as_str());
    push_str(out, "</property>\n  </producer>\n");
    assert(out@ =~= start + producer_xml(n as nat, *c));
}

fn append_entry(out: &mut String, n: u128, c: &PlacedClip)
    requires
        frames_fit(*c),
    ensures
        final(out)@ == old(out)@ + entry_xml(n as nat, *c),
{
    let ghost start = out@;
    if c.blank_frames > 0 {
        push_str(out, "    <blank length=\"");
        let b = decimal_i64(c.blank_frames);
        push_str(out, b.as_str());
        push_str(out, "\"/>\n");
    }
    assert(out@ =~= start + blank_xml(*c));
    let last = c.in_frame + c.duration_frames - 1;
    let out_frame_value = if last >= c.in_frame { last } else { c.in_frame };
    push_str(out, "    <entry producer=\"producer");
    let id = decimal_u128(n);
    push_str(out, id.as_str());
    push_str(out, "\" in=\"");
    let i = decimal_i64(c.in_frame);
    push_str(out, i.as_str());
    push_str(out, "\" out=\"");
    let o = decimal_i64(out_frame_value);
    push_str(out, o.as_str());
    push_str(out, "\"/>\n");
    assert(out@ =~= start + entry_xml(n as nat, *c));
}

/// Writes the MLT document for the given playlists: one producer per clip
/// (numbered across all playlists), one playlist per track with a blank
/// before each clip that starts after a gap, and a tractor that mixes and
/// composites every track over track 0.  Without any playlist there is
/// nothing to render.
pub fn mlt_document(playlists: &Vec<Vec<PlacedClip>>) -> (r: Result<String, MltError>)
    requires
        forall|c: PlacedClip| all_clips(playlists@).contains(c) ==> frames_fit(c),
    ensures
        playlists.len() == 0 ==> r == Err::<String, MltError>(MltError::NothingToRender),
        playlists.len() > 0 ==> (r matches Ok(doc) && doc@ == mlt_xml(playlists@)),
{
    let n = playlists.len();
    if n == 0 {
        return Err(MltError::NothingToRender);
    }
    let ghost pls = playlists@;
    let mut producers = String::new();
    let mut lists = String::new();
    let mut refs = String::new();
    let mut pid: u128 = 0;
    let mut p: usize = 0;
    while p < n
        invariant
            n == playlists.len(),
            pls == playlists@,
            p <= n,
            forall|c: PlacedClip| all_clips(pls).contains(c) ==> frames_fit(c),
            pid == all_clips(pls.take(p as int)).len(),
            pid <= p * 0x1_0000_0000_0000_0000,
            producers@ == producers_xml(all_clips(pls.take(p as int))),
            lists@ == playlists_xml(pls.take(p as int)),
            refs@ == track_refs_xml(p as nat),
        decreases n - p,
    {
        let pl = &playlists[p];
        let ghost before = all_clips(pls.take(p as int));
        let ghost base = pid as nat;
        assert(pls.take(p + 1).drop_last() =~= pls.take(p as int));
        assert(all_clips(pls.take(p + 1)) == before + pl@);
        let mut entries = String::new();
        let mut k: usize = 0;
        while k < pl.len()
            invariant
                pl == &playlists@[p as int],
                pls == playlists@,
                n == playlists.len(),
                p < n,
                k <= pl.len(),
                before == all_clips(pls.take(p as int)),
                all_clips(pls.take(p + 1)) == before + pl@,
                forall|c: PlacedClip| all_clips(pls).contains(c) ==> frames_fit(c),
                base == before.len(),
                base <= p * 0x1_0000_0000_0000_0000,
                pid == base + k,
                producers@ == producers_xml(before + pl@.take(k as int)),
                entries@ == entries_xml(pl@.take(k as int), base),
            decreases pl.len() - k,
        {
            let c = &pl[k];
            proof {
                lemma_all_clips_prefix_contains(pls, p + 1);
                assert(p * 0x1_0000_0000_0000_0000 + k + 1 <= (p + 1) * 0x1_0000_0000_0000_0000);
                assert((before + pl@)[before.len() + k] == *c);
                assert(all_clips(pls.take(p + 1)).contains(*c));
            }
            append_producer(&mut producers, pid, c);
            append_entry(&mut entries, pid, c);
            proof {
                assert((before + pl@.take(k + 1)).drop_last() =~= before + pl@.take(k as int));
                assert(pl@.take(k + 1).drop_last() =~= pl@.take(k as int));
            }
            pid = pid + 1;
            k = k + 1;
        }
        assert(pl@.take(k as int) =~= pl@);
        push_str(&mut lists, "  <playlist id=\"playlist");
        let pname = decimal_usize(p);
        push_str(&mut lists, pname.as_str());
        push_str(&mut lists, "\">\n");
        push_str(&mut lists, entries.as_str());
        push_str(&mut lists, "  </playlist>\n");
        push_str(&mut refs, "    <track producer=\"playlist");
        push_str(&mut refs, pname.as_str());
        push_str(&mut refs, "\"/>\n");
        proof {
            assert(lists@ =~= playlists_xml(pls.take(p + 1)));
            assert(refs@ =~= track_refs_xml((p + 1) as nat));
        }
        p = p + 1;
    }
    assert(pls.take(n as int) =~= pls);
    let mut transitions = String::new();
    let mut i: usize = 1;
    while i < n
        invariant
            1 <= i <= n,
            transitions@ == transitions_xml(i as nat),
        decreases n - i,
    {
        let name = decimal_usize(i);
        push_str(&mut transitions, "    <transition mlt_service=\"mix\" a_track=\"0\" b_track=\"");
        push_str(&mut transitions, name.as_str());
        push_str(&mut transitions, "\" always_active=\"1\" combine=\"1\"/>\n");
        push_str(&mut transitions, "    <transition mlt_service=\"qtblend\" a_track=\"0\" b_track=\"");
        push_str(&mut transitions, name.as_str());
        push_str(&mut transitions, "\"/>\n");
        assert(transitions@ =~= transitions_xml((i + 1) as nat));
        i = i + 1;
    }
    let mut doc = String::new();
    push_str(&mut doc, "<?xml version=\"1.0\" encoding=\"utf-8\"?>\n<mlt>\n");
    push_str(&mut doc, producers.as_str());
    push_str(&mut doc, lists.as_str());
    push_str(&mut doc, "  <tractor id=\"tractor0\">\n");
    push_str(&mut doc, refs.as_str());
    push_str(&mut doc, transitions.as_str());
    push_str(&mut doc, "  </tractor>\n</mlt>\n");
    assert(doc@ =~= mlt_xml(playlists@));
    Ok(doc)
}

proof fn lemma_all_clips_prefix_contains(pls: Seq<Vec<PlacedClip>>, m: int)
    requires
        0 <= m <= pls.len(),
    ensures
        forall|c: PlacedClip| all_clips(pls.take(m)).contains(c) ==> all_clips(pls).contains(c),
    decreases pls.len() - m,
{
    if m < pls.len() {
        lemma_all_clips_prefix_contains(pls.drop_last(), m);
        assert(pls.drop_last().take(m) =~= pls.take(m));
        assert forall|c: PlacedClip| all_clips(pls.drop_last()).contains(c) implies all_clips(pls).contains(c) by {
            let q = choose|q: int| 0 <= q < all_clips(pls.drop_last()).len() && all_clips(pls.drop_last())[q] == c;
            assert(all_clips(pls)[q] == c);
        }
    } else {
        assert(pls.take(m) =~= pls);
    }
}

} // verus!
