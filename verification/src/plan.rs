//! Pairing subtitles with videos and planning the renames.
//!
//! A mapping from episode number to video filename is built over the
//! collected videos, later videos overwriting earlier ones with the same
//! number, videos without an extractable number silently dropped. Each
//! subtitle whose extractable episode number finds a video in the mapping
//! yields one rename operation: the subtitle keeps its own extension and
//! takes the video's stem. Subtitles without a number, without a match or
//! without an extension are silently skipped. The operations are sorted by
//! episode number, ascending and stably.
//!
//! Planning only ever happens when the collected video and subtitle counts
//! agree; a mismatch is reported with both counts and yields no plan, and
//! an empty plan is reported as its own outcome.

use std::collections::HashMap;
use vstd::prelude::*;

use crate::extract::extract_episode_number;
use crate::extract::spec_extract;
use crate::names::extension_of;
use crate::names::make_new_name;
use crate::names::spec_extension;
use crate::names::spec_new_name;

verus! {

broadcast use vstd::std_specs::hash::group_hash_axioms;

/// One planned rename: the subtitle as found, and the name it takes.
pub struct RenameOp {
    /// The episode number extracted from the subtitle's name.
    pub episode: u32,
    /// The subtitle's current filename.
    pub source: String,
    /// The filename the subtitle is renamed to.
    pub target: String,
}

/// The mathematical value of a rename operation.
pub ghost struct OpV {
    pub episode: u32,
    pub source: Seq<char>,
    pub target: Seq<char>,
}

impl View for RenameOp {
    type V = OpV;

    open spec fn view(&self) -> OpV {
        OpV { episode: self.episode, source: self.source@, target: self.target@ }
    }
}

impl DeepView for RenameOp {
    type V = OpV;

    open spec fn deep_view(&self) -> OpV {
        self.view()
    }
}

/// The outcome of planning a run's renames.
pub enum PlanResult {
    /// The collected counts differ: nothing is planned or renamed.
    CountMismatch { video_count: usize, subtitle_count: usize },
    /// The counts agree but no subtitle found a matching video.
    NoMatches,
    /// The planned renames, sorted by episode number.
    Ready(Vec<RenameOp>),
}

/// The mapping from episode number to video filename: built in listing
/// order, a later video overwriting an earlier one with the same number,
/// videos without an extractable number dropped.
pub open spec fn video_map(vs: Seq<Seq<char>>) -> Map<u32, Seq<char>>
    decreases vs.len(),
{
    if vs.len() == 0 {
        Map::empty()
    } else {
        let m = video_map(vs.drop_last());
        match spec_extract(vs.last()) {
            Some(n) => m.insert(n, vs.last()),
            None => m,
        }
    }
}

/// The rename operations the subtitles yield against the video mapping, in
/// subtitle listing order: one operation per subtitle whose episode number
/// finds a video, the target built from the video's stem and the
/// subtitle's own extension.
pub open spec fn plan_ops(subs: Seq<Seq<char>>, m: Map<u32, Seq<char>>) -> Seq<OpV>
    decreases subs.len(),
{
    if subs.len() == 0 {
        Seq::empty()
    } else {
        let prev = plan_ops(subs.drop_last(), m);
        let s = subs.last();
        match spec_extract(s) {
            Some(n) => if m.contains_key(n) && spec_extension(s) is Some {
                prev.push(
                    OpV {
                        episode: n,
                        source: s,
                        target: spec_new_name(m[n], spec_extension(s)->Some_0),
                    },
                )
            } else {
                prev
            },
            None => prev,
        }
    }
}

/// `x` placed into the sorted sequence `s`: before the elements whose
/// episode number exceeds its own, after all others, so that equal numbers
/// keep their order.
pub open spec fn insert_sorted(s: Seq<OpV>, x: OpV) -> Seq<OpV>
    decreases s.len(),
{
    if s.len() == 0 {
        seq![x]
    } else if s.last().episode > x.episode {
        insert_sorted(s.drop_last(), x).push(s.last())
    } else {
        s.push(x)
    }
}

/// The operations sorted by episode number, ascending and stably.
pub open spec fn sort_by_episode(s: Seq<OpV>) -> Seq<OpV>
    decreases s.len(),
{
    if s.len() == 0 {
        Seq::empty()
    } else {
        insert_sorted(sort_by_episode(s.drop_last()), s.last())
    }
}

/// The whole plan of a run: the subtitles' operations against the videos'
/// mapping, sorted by episode number.
pub open spec fn spec_plan(videos: Seq<Seq<char>>, subs: Seq<Seq<char>>) -> Seq<OpV> {
    sort_by_episode(plan_ops(subs, video_map(videos)))
}

/// The hash map holds exactly the video mapping `m`, its values viewed as
/// character sequences.
spec fn map_models(hm: Map<u32, String>, m: Map<u32, Seq<char>>) -> bool {
    &&& hm.dom() == m.dom()
    &&& forall|k: u32| #[trigger] m.contains_key(k) ==> hm[k]@ == m[k]
}

/// Builds the episode-to-video hash map over the video names.
fn build_video_map(videos: &Vec<String>) -> (hm: HashMap<u32, String>)
    ensures
        map_models(hm@, video_map(videos.deep_view())),
{
    let mut hm: HashMap<u32, String> = HashMap::new();
    proof {
        assert(videos.deep_view().subrange(0, 0) =~= Seq::<Seq<char>>::empty());
        assert(hm@.dom() =~= video_map(videos.deep_view().subrange(0, 0)).dom());
    }
    let n = videos.len();
    let mut i: usize = 0;
    while i < n
        invariant
            i <= n,
            n == videos@.len(),
            vstd::std_specs::hash::obeys_key_model::<u32>(),
            vstd::std_specs::hash::builds_valid_hashers::<std::hash::RandomState>(),
            map_models(hm@, video_map(videos.deep_view().subrange(0, i as int))),
        decreases n - i,
    {
        let ghost pre = videos.deep_view().subrange(0, i as int);
        let ghost post = videos.deep_view().subrange(0, i + 1);
        proof {
            assert(post.drop_last() =~= pre);
            assert(post.last() == videos@[i as int]@);
        }
        let name = &videos[i];
        match extract_episode_number(name.as_str()) {
            Some(ep) => {
                hm.insert(ep, name.clone());
                proof {
                    assert(video_map(post) == video_map(pre).insert(ep, name@));
                    assert(hm@.dom() =~= video_map(post).dom());
                    assert(map_models(hm@, video_map(post)));
                }
            },
            None => {
                proof {
                    assert(video_map(post) == video_map(pre));
                }
            },
        }
        i = i + 1;
    }
    proof {
        assert(videos.deep_view().subrange(0, n as int) =~= videos.deep_view());
    }
    hm
}

/// Builds the rename operations over the subtitles, in listing order.
fn build_plan_ops(subtitles: &Vec<String>, hm: &HashMap<u32, String>, Ghost(m): Ghost<
    Map<u32, Seq<char>>,
>) -> (ops: Vec<RenameOp>)
    requires
        map_models(hm@, m),
    ensures
        ops.deep_view() == plan_ops(subtitles.deep_view(), m),
{
    let mut ops: Vec<RenameOp> = Vec::new();
    proof {
        assert(subtitles.deep_view().subrange(0, 0) =~= Seq::<Seq<char>>::empty());
        assert(ops.deep_view() =~= plan_ops(subtitles.deep_view().subrange(0, 0), m));
    }
    let n = subtitles.len();
    let mut i: usize = 0;
    while i < n
        invariant
            i <= n,
            n == subtitles@.len(),
            vstd::std_specs::hash::obeys_key_model::<u32>(),
            vstd::std_specs::hash::builds_valid_hashers::<std::hash::RandomState>(),
            map_models(hm@, m),
            ops.deep_view() == plan_ops(subtitles.deep_view().subrange(0, i as int), m),
        decreases n - i,
    {
        let ghost pre = subtitles.deep_view().subrange(0, i as int);
        let ghost post = subtitles.deep_view().subrange(0, i + 1);
        proof {
            assert(post.drop_last() =~= pre);
            assert(post.last() == subtitles@[i as int]@);
        }
        let sub = &subtitles[i];
        let ghost old_deep = ops.deep_view();
        match extract_episode_number(sub.as_str()) {
            Some(ep) => {
                match hm.get(&ep) {
                    Some(video) => {
                        proof {
                            assert(m.contains_key(ep) && video@ == m[ep]);
                        }
                        match extension_of(sub.as_str()) {
                            Some(ext) => {
                                let target = make_new_name(video.as_str(), ext.as_str());
                                ops.push(
                                    RenameOp { episode: ep, source: sub.clone(), target },
                                );
                                proof {
                                    assert(ops.deep_view() =~= old_deep.push(
                                        OpV {
                                            episode: ep,
                                            source: sub@,
                                            target: spec_new_name(
                                                m[ep],
                                                spec_extension(sub@)->Some_0,
                                            ),
                                        },
                                    ));
                                    assert(ops.deep_view() =~= plan_ops(post, m));
                                }
                            },
                            None => {
                                proof {
                                    assert(ops.deep_view() =~= plan_ops(post, m));
                                }
                            },
                        }
                    },
                    None => {
                        proof {
                            assert(!m.contains_key(ep));
                            assert(ops.deep_view() =~= plan_ops(post, m));
                        }
                    },
                }
            },
            None => {
                proof {
                    assert(ops.deep_view() =~= plan_ops(post, m));
                }
            },
        }
        i = i + 1;
    }
    proof {
        assert(subtitles.deep_view().subrange(0, n as int) =~= subtitles.deep_view());
    }
    ops
}

/// Splitting a sorted sequence where `x` belongs describes the recursive
/// insertion: `x` lands after the prefix whose last element does not
/// exceed it.
proof fn lemma_insert_sorted_at(s: Seq<OpV>, x: OpV, j: int)
    requires
        0 <= j <= s.len(),
        forall|t: int| j <= t < s.len() ==> s[t].episode > x.episode,
        j > 0 ==> s[j - 1].episode <= x.episode,
    ensures
        insert_sorted(s, x) == s.subrange(0, j).push(x) + s.subrange(j, s.len() as int),
    decreases s.len(),
{
    if j == s.len() {
        if s.len() == 0 {
            assert(insert_sorted(s, x) =~= s.subrange(0, j).push(x) + s.subrange(
                j,
                s.len() as int,
            ));
        } else {
            assert(s[j - 1].episode <= x.episode);
            assert(insert_sorted(s, x) == s.push(x));
            assert(s.subrange(0, j).push(x) + s.subrange(j, s.len() as int) =~= s.push(x));
        }
    } else {
        assert(s.last().episode > x.episode);
        let d = s.drop_last();
        assert(forall|t: int| j <= t < d.len() ==> d[t].episode > x.episode);
        lemma_insert_sorted_at(d, x, j);
        assert(d.subrange(0, j) =~= s.subrange(0, j));
        assert(insert_sorted(s, x) == (d.subrange(0, j).push(x) + d.subrange(
            j,
            d.len() as int,
        )).push(s.last()));
        assert((d.subrange(0, j).push(x) + d.subrange(j, d.len() as int)).push(s.last()) =~= s
            .subrange(0, j).push(x) + s.subrange(j, s.len() as int));
    }
}

/// Sorts the operations by episode number, ascending and stably.
fn sort_plan(ops: &Vec<RenameOp>) -> (r: Vec<RenameOp>)
    ensures
        r.deep_view() == sort_by_episode(ops.deep_view()),
{
    let mut out: Vec<RenameOp> = Vec::new();
    proof {
        assert(ops.deep_view().subrange(0, 0) =~= Seq::<OpV>::empty());
        assert(out.deep_view() =~= sort_by_episode(ops.deep_view().subrange(0, 0)));
    }
    let n = ops.len();
    let mut i: usize = 0;
    while i < n
        invariant
            i <= n,
            n == ops@.len(),
            out.deep_view() == sort_by_episode(ops.deep_view().subrange(0, i as int)),
        decreases n - i,
    {
        let ghost pre = ops.deep_view().subrange(0, i as int);
        let ghost post = ops.deep_view().subrange(0, i + 1);
        proof {
            assert(post.drop_last() =~= pre);
            assert(post.last() == ops@[i as int]@);
        }
        let item = &ops[i];
        let x = RenameOp {
            episode: item.episode,
            source: item.source.clone(),
            target: item.target.clone(),
        };
        let ghost sorted_pre = out.deep_view();
        let mut j: usize = out.len();
        while j > 0 && out[j - 1].episode > x.episode
            invariant
                j <= out@.len(),
                out.deep_view() == sorted_pre,
                x@ == ops.deep_view()[i as int],
                i < ops@.len(),
                forall|t: int| j <= t < sorted_pre.len() ==> sorted_pre[t].episode > x@.episode,
            decreases j,
        {
            j = j - 1;
        }
        proof {
            lemma_insert_sorted_at(sorted_pre, x@, j as int);
        }
        out.insert(j, x);
        proof {
            assert(out.deep_view() =~= sorted_pre.subrange(0, j as int).push(x@)
                + sorted_pre.subrange(j as int, sorted_pre.len() as int));
            assert(out.deep_view() =~= insert_sorted(sorted_pre, x@));
            assert(out.deep_view() =~= sort_by_episode(post));
        }
        i = i + 1;
    }
    proof {
        assert(ops.deep_view().subrange(0, n as int) =~= ops.deep_view());
    }
    out
}

/// The operations stand in ascending order of episode number.
pub open spec fn episode_sorted(s: Seq<OpV>) -> bool {
    forall|a: int, b: int| 0 <= a < b < s.len() ==> s[a].episode <= s[b].episode
}

/// Every element of the insertion's result is the inserted element or one
/// of the sequence's own.
proof fn lemma_insert_sorted_elems(s: Seq<OpV>, x: OpV)
    ensures
        insert_sorted(s, x).len() == s.len() + 1,
        forall|j: int|
            0 <= j < insert_sorted(s, x).len() ==> (#[trigger] insert_sorted(s, x)[j] == x
                || s.contains(insert_sorted(s, x)[j])),
    decreases s.len(),
{
    if s.len() == 0 {
    } else if s.last().episode > x.episode {
        let d = s.drop_last();
        lemma_insert_sorted_elems(d, x);
        assert forall|j: int|
            0 <= j < insert_sorted(s, x).len() implies (#[trigger] insert_sorted(s, x)[j] == x
            || s.contains(insert_sorted(s, x)[j])) by {
            let r = insert_sorted(d, x).push(s.last());
            if j == r.len() - 1 {
                assert(s[s.len() - 1] == s.last());
            } else {
                assert(r[j] == insert_sorted(d, x)[j]);
                if insert_sorted(d, x)[j] != x {
                    let t = choose|t: int| 0 <= t < d.len() && d[t] == insert_sorted(d, x)[j];
                    assert(s[t] == insert_sorted(s, x)[j]);
                }
            }
        }
    } else {
        assert forall|j: int|
            0 <= j < insert_sorted(s, x).len() implies (#[trigger] insert_sorted(s, x)[j] == x
            || s.contains(insert_sorted(s, x)[j])) by {
            if j < s.len() {
                assert(s[j] == insert_sorted(s, x)[j]);
            }
        }
    }
}

/// Inserting into a sorted sequence keeps it sorted.
proof fn lemma_insert_sorted_sorted(s: Seq<OpV>, x: OpV)
    requires
        episode_sorted(s),
    ensures
        episode_sorted(insert_sorted(s, x)),
    decreases s.len(),
{
    if s.len() == 0 {
    } else if s.last().episode > x.episode {
        let d = s.drop_last();
        assert(episode_sorted(d)) by {
            assert(forall|a: int, b: int| 0 <= a < b < d.len() ==> s[a].episode <= s[b].episode);
        }
        lemma_insert_sorted_sorted(d, x);
        lemma_insert_sorted_elems(d, x);
        let r = insert_sorted(d, x).push(s.last());
        assert forall|a: int, b: int| 0 <= a < b < r.len() implies r[a].episode
            <= r[b].episode by {
            if b == r.len() - 1 {
                if r[a] == x {
                } else {
                    let t = choose|t: int| 0 <= t < d.len() && d[t] == r[a];
                    assert(s[t].episode <= s[s.len() - 1].episode);
                }
            } else {
                assert(r[a] == insert_sorted(d, x)[a] && r[b] == insert_sorted(d, x)[b]);
            }
        }
    } else {
        let r = s.push(x);
        assert forall|a: int, b: int| 0 <= a < b < r.len() implies r[a].episode
            <= r[b].episode by {
            if b == r.len() - 1 {
                if a < s.len() - 1 {
                    assert(s[a].episode <= s[s.len() - 1].episode);
                }
            }
        }
    }
}

/// The sorted plan is a permutation of the operations, in ascending order
/// of episode number: sorting neither loses, adds nor alters an operation.
pub proof fn lemma_sort_by_episode(s: Seq<OpV>)
    ensures
        episode_sorted(sort_by_episode(s)),
        sort_by_episode(s).to_multiset() == s.to_multiset(),
    decreases s.len(),
{
    broadcast use vstd::seq_lib::group_to_multiset_ensures;

    if s.len() == 0 {
        assert(sort_by_episode(s).to_multiset() =~= s.to_multiset());
    } else {
        let d = s.drop_last();
        lemma_sort_by_episode(d);
        lemma_insert_sorted_sorted(sort_by_episode(d), s.last());
        lemma_insert_sorted_multiset(sort_by_episode(d), s.last());
        assert(d.push(s.last()) =~= s);
        assert(s.to_multiset() == d.to_multiset().insert(s.last()));
        assert(sort_by_episode(s).to_multiset() =~= s.to_multiset());
    }
}

/// Insertion adds exactly the inserted element to the multiset.
proof fn lemma_insert_sorted_multiset(s: Seq<OpV>, x: OpV)
    ensures
        insert_sorted(s, x).to_multiset() == s.to_multiset().insert(x),
    decreases s.len(),
{
    broadcast use vstd::seq_lib::group_to_multiset_ensures;

    if s.len() == 0 {
        assert(seq![x] =~= Seq::<OpV>::empty().push(x));
        assert(insert_sorted(s, x).to_multiset() =~= s.to_multiset().insert(x));
    } else if s.last().episode > x.episode {
        let d = s.drop_last();
        lemma_insert_sorted_multiset(d, x);
        assert(d.push(s.last()) =~= s);
        assert(s.to_multiset() == d.to_multiset().insert(s.last()));
        assert(insert_sorted(s, x).to_multiset() == d.to_multiset().insert(x).insert(s.last()));
        assert(d.to_multiset().insert(x).insert(s.last()) =~= d.to_multiset().insert(
            s.last(),
        ).insert(x));
    } else {
    }
}

/// The plan of a run is the subtitles' operations in ascending order of
/// episode number: a permutation, nothing lost, added or altered.
pub proof fn lemma_plan_is_sorted(videos: Seq<Seq<char>>, subs: Seq<Seq<char>>)
    ensures
        episode_sorted(spec_plan(videos, subs)),
        spec_plan(videos, subs).to_multiset() == plan_ops(subs, video_map(videos)).to_multiset(),
{
    lemma_sort_by_episode(plan_ops(subs, video_map(videos)));
}

/// The subtitle already carries the name the plan would give it: where its
/// episode number finds a video and it has an extension, its name already
/// is the video's stem with its own extension.
pub open spec fn already_named(s: Seq<char>, m: Map<u32, Seq<char>>) -> bool {
    match spec_extract(s) {
        Some(n) => (m.contains_key(n) && spec_extension(s) is Some) ==> s == spec_new_name(
            m[n],
            spec_extension(s)->Some_0,
        ),
        None => true,
    }
}

proof fn lemma_plan_ops_noop(subs: Seq<Seq<char>>, m: Map<u32, Seq<char>>)
    requires
        forall|i: int| 0 <= i < subs.len() ==> already_named(#[trigger] subs[i], m),
    ensures
        forall|j: int|
            0 <= j < plan_ops(subs, m).len() ==> (#[trigger] plan_ops(subs, m)[j]).source
                == plan_ops(subs, m)[j].target,
    decreases subs.len(),
{
    if subs.len() > 0 {
        let d = subs.drop_last();
        assert(forall|i: int| 0 <= i < d.len() ==> already_named(#[trigger] d[i], m)) by {
            assert(forall|i: int| 0 <= i < d.len() ==> d[i] == subs[i]);
        }
        lemma_plan_ops_noop(d, m);
        assert(already_named(subs[subs.len() - 1], m));
        assert forall|j: int|
            0 <= j < plan_ops(subs, m).len() implies (#[trigger] plan_ops(subs, m)[j]).source
            == plan_ops(subs, m)[j].target by {
            if j < plan_ops(d, m).len() {
                assert(plan_ops(subs, m)[j] == plan_ops(d, m)[j]);
            }
        }
    }
}

/// Planning over an already renamed set changes nothing: where every
/// subtitle already carries the name the plan would give it, every planned
/// operation renames a file to its own name.
pub proof fn lemma_plan_idempotent(videos: Seq<Seq<char>>, subs: Seq<Seq<char>>)
    requires
        forall|i: int|
            0 <= i < subs.len() ==> already_named(#[trigger] subs[i], video_map(videos)),
    ensures
        forall|j: int|
            0 <= j < spec_plan(videos, subs).len() ==> (#[trigger] spec_plan(videos, subs)[j]).source == spec_plan(videos, subs)[j].target,
{
    let m = video_map(videos);
    let ops = plan_ops(subs, m);
    lemma_plan_ops_noop(subs, m);
    lemma_sort_elems(ops);
    assert forall|j: int|
        0 <= j < spec_plan(videos, subs).len() implies (#[trigger] spec_plan(videos, subs)[j]).source == spec_plan(videos, subs)[j].target by {
        assert(ops.contains(spec_plan(videos, subs)[j]));
        let t = choose|t: int| 0 <= t < ops.len() && ops[t] == spec_plan(videos, subs)[j];
    }
}

/// Every element of the sorted sequence is one of the original's.
proof fn lemma_sort_elems(s: Seq<OpV>)
    ensures
        forall|j: int|
            0 <= j < sort_by_episode(s).len() ==> s.contains(#[trigger] sort_by_episode(s)[j]),
    decreases s.len(),
{
    if s.len() > 0 {
        let d = s.drop_last();
        lemma_sort_elems(d);
        lemma_insert_sorted_elems(sort_by_episode(d), s.last());
        assert forall|j: int|
            0 <= j < sort_by_episode(s).len() implies s.contains(
            #[trigger] sort_by_episode(s)[j],
        ) by {
            let e = sort_by_episode(s)[j];
            if e == s.last() {
                assert(s[s.len() - 1] == e);
            } else {
                assert(sort_by_episode(d).contains(e));
                let t = choose|t: int| 0 <= t < sort_by_episode(d).len() && sort_by_episode(d)[t]
                    == e;
                let u = choose|u: int| 0 <= u < d.len() && d[u] == e;
                assert(s[u] == e);
            }
        }
    }
}

/// Plans the run's renames. With unequal counts, nothing is planned and
/// both counts are reported; with equal counts the subtitles are paired
/// against the video mapping, and the sorted plan is returned, an empty
/// plan as its own outcome.
pub fn plan_renames(videos: &Vec<String>, subtitles: &Vec<String>) -> (r: PlanResult)
    ensures
        match r {
            PlanResult::CountMismatch { video_count, subtitle_count } => {
                &&& videos@.len() != subtitles@.len()
                &&& video_count == videos@.len()
                &&& subtitle_count == subtitles@.len()
            },
            PlanResult::NoMatches => {
                &&& videos@.len() == subtitles@.len()
                &&& spec_plan(videos.deep_view(), subtitles.deep_view()).len() == 0
            },
            PlanResult::Ready(plan) => {
                &&& videos@.len() == subtitles@.len()
                &&& plan.deep_view() == spec_plan(videos.deep_view(), subtitles.deep_view())
                &&& plan@.len() > 0
            },
        },
{
    if videos.len() != subtitles.len() {
        return PlanResult::CountMismatch {
            video_count: videos.len(),
            subtitle_count: subtitles.len(),
        };
    }
    let hm = build_video_map(videos);
    let ops = build_plan_ops(subtitles, &hm, Ghost(video_map(videos.deep_view())));
    let sorted = sort_plan(&ops);
    if sorted.len() == 0 {
        PlanResult::NoMatches
    } else {
        PlanResult::Ready(sorted)
    }
}

} // verus!
