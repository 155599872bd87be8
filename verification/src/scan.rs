//! Classification of directory entries into the working video and subtitle
//! sets.
//!
//! Two passes run over the same listing and their results are combined.
//! The first pass classifies every entry by its extension component alone,
//! whatever its kind or size. The second pass takes only regular files: a
//! video when it is strictly larger than the size floor and its name ends
//! with a dotted video extension, a subtitle whenever its name ends with a
//! dotted subtitle extension. Small videos thus still enter through the
//! first pass, and subtitles enter through both.

use vstd::prelude::*;

use crate::names::spec_has_subtitle_suffix;
use crate::names::spec_has_video_suffix;
use crate::names::spec_is_subtitle_name;
use crate::names::spec_is_video_name;
use crate::names::has_subtitle_extension;
use crate::names::has_subtitle_suffix;
use crate::names::has_video_extension;
use crate::names::has_video_suffix;

verus! {

/// One directory entry as the scanner sees it: the filename, whether the
/// entry is a regular file, and its size in bytes.
pub struct MediaEntry {
    pub name: String,
    pub is_file: bool,
    pub size: u64,
}

/// The size floor of the size-gated pass: 200 MiB. Only regular files
/// strictly larger than this count as videos in that pass.
pub const SIZE_FLOOR: u64 = 209715200;

/// The video names the extension pass takes, in listing order.
pub open spec fn pass_a_videos(es: Seq<MediaEntry>) -> Seq<Seq<char>>
    decreases es.len(),
{
    if es.len() == 0 {
        Seq::empty()
    } else {
        let prev = pass_a_videos(es.drop_last());
        if spec_is_video_name(es.last().name@) {
            prev.push(es.last().name@)
        } else {
            prev
        }
    }
}

/// The subtitle names the extension pass takes, in listing order.
pub open spec fn pass_a_subtitles(es: Seq<MediaEntry>) -> Seq<Seq<char>>
    decreases es.len(),
{
    if es.len() == 0 {
        Seq::empty()
    } else {
        let prev = pass_a_subtitles(es.drop_last());
        if !spec_is_video_name(es.last().name@) && spec_is_subtitle_name(es.last().name@) {
            prev.push(es.last().name@)
        } else {
            prev
        }
    }
}

/// The video names the size-gated pass takes: regular files over the size
/// floor whose names end with a dotted video extension.
pub open spec fn pass_b_videos(es: Seq<MediaEntry>) -> Seq<Seq<char>>
    decreases es.len(),
{
    if es.len() == 0 {
        Seq::empty()
    } else {
        let prev = pass_b_videos(es.drop_last());
        let e = es.last();
        if e.is_file && e.size > SIZE_FLOOR && spec_has_video_suffix(e.name@) {
            prev.push(e.name@)
        } else {
            prev
        }
    }
}

/// The subtitle names the size-gated pass takes: regular files whose names
/// end with a dotted subtitle extension, whatever their size.
pub open spec fn pass_b_subtitles(es: Seq<MediaEntry>) -> Seq<Seq<char>>
    decreases es.len(),
{
    if es.len() == 0 {
        Seq::empty()
    } else {
        let prev = pass_b_subtitles(es.drop_last());
        let e = es.last();
        if e.is_file && spec_has_subtitle_suffix(e.name@) {
            prev.push(e.name@)
        } else {
            prev
        }
    }
}

/// Collects the working video and subtitle sets from a directory listing:
/// the extension pass over every entry, then the size-gated pass over the
/// regular files, their takes concatenated in that order.
pub fn collect_media_files(entries: &Vec<MediaEntry>) -> (r: (Vec<String>, Vec<String>))
    ensures
        r.0.deep_view() == pass_a_videos(entries@) + pass_b_videos(entries@),
        r.1.deep_view() == pass_a_subtitles(entries@) + pass_b_subtitles(entries@),
{
    let n = entries.len();
    let mut videos: Vec<String> = Vec::new();
    let mut subtitles: Vec<String> = Vec::new();
    proof {
        assert(entries@.subrange(0, 0) =~= Seq::<MediaEntry>::empty());
        assert(videos.deep_view() =~= pass_a_videos(entries@.subrange(0, 0)));
        assert(subtitles.deep_view() =~= pass_a_subtitles(entries@.subrange(0, 0)));
    }
    let mut i: usize = 0;
    while i < n
        invariant
            i <= n,
            n == entries@.len(),
            videos.deep_view() == pass_a_videos(entries@.subrange(0, i as int)),
            subtitles.deep_view() == pass_a_subtitles(entries@.subrange(0, i as int)),
        decreases n - i,
    {
        let e = &entries[i];
        proof {
            assert(entries@.subrange(0, i + 1).drop_last() =~= entries@.subrange(0, i as int));
            assert(entries@.subrange(0, i + 1).last() == entries@[i as int]);
        }
        if has_video_extension(e.name.as_str()) {
            videos.push(e.name.clone());
        } else if has_subtitle_extension(e.name.as_str()) {
            subtitles.push(e.name.clone());
        }
        proof {
            assert(videos.deep_view() =~= pass_a_videos(entries@.subrange(0, i + 1)));
            assert(subtitles.deep_view() =~= pass_a_subtitles(entries@.subrange(0, i + 1)));
        }
        i = i + 1;
    }
    proof {
        assert(entries@.subrange(0, n as int) =~= entries@);
        assert(videos.deep_view() =~= pass_a_videos(entries@) + pass_b_videos(
            entries@.subrange(0, 0),
        ));
        assert(subtitles.deep_view() =~= pass_a_subtitles(entries@) + pass_b_subtitles(
            entries@.subrange(0, 0),
        ));
    }
    let mut i: usize = 0;
    while i < n
        invariant
            i <= n,
            n == entries@.len(),
            videos.deep_view() == pass_a_videos(entries@) + pass_b_videos(
                entries@.subrange(0, i as int),
            ),
            subtitles.deep_view() == pass_a_subtitles(entries@) + pass_b_subtitles(
                entries@.subrange(0, i as int),
            ),
        decreases n - i,
    {
        let e = &entries[i];
        proof {
            assert(entries@.subrange(0, i + 1).drop_last() =~= entries@.subrange(0, i as int));
            assert(entries@.subrange(0, i + 1).last() == entries@[i as int]);
        }
        if e.is_file && e.size > SIZE_FLOOR && has_video_suffix(e.name.as_str()) {
            let ghost old_deep = videos.deep_view();
            videos.push(e.name.clone());
            proof {
                let x = entries@[i as int].name@;
                assert(videos.deep_view() =~= old_deep.push(x));
                assert(pass_b_videos(entries@.subrange(0, i + 1)) == pass_b_videos(
                    entries@.subrange(0, i as int),
                ).push(x));
                assert(videos.deep_view() =~= pass_a_videos(entries@) + pass_b_videos(
                    entries@.subrange(0, i + 1),
                ));
            }
        } else {
            proof {
                assert(videos.deep_view() =~= pass_a_videos(entries@) + pass_b_videos(
                    entries@.subrange(0, i + 1),
                ));
            }
        }
        if e.is_file && has_subtitle_suffix(e.name.as_str()) {
            let ghost old_deep = subtitles.deep_view();
            subtitles.push(e.name.clone());
            proof {
                let x = entries@[i as int].name@;
                assert(subtitles.deep_view() =~= old_deep.push(x));
                assert(pass_b_subtitles(entries@.subrange(0, i + 1)) == pass_b_subtitles(
                    entries@.subrange(0, i as int),
                ).push(x));
                assert(subtitles.deep_view() =~= pass_a_subtitles(entries@) + pass_b_subtitles(
                    entries@.subrange(0, i + 1),
                ));
            }
        } else {
            proof {
                assert(subtitles.deep_view() =~= pass_a_subtitles(entries@) + pass_b_subtitles(
                    entries@.subrange(0, i + 1),
                ));
            }
        }
        i = i + 1;
    }
    proof {
        assert(entries@.subrange(0, n as int) =~= entries@);
    }
    (videos, subtitles)
}

} // verus!
