use subrename::scan::collect_media_files;
use subrename::scan::MediaEntry;
use subrename::scan::SIZE_FLOOR;

fn entry(name: &str, is_file: bool, size: u64) -> MediaEntry {
    MediaEntry { name: String::from(name), is_file, size }
}

#[test]
fn large_video_taken_by_both_passes() {
    let entries = vec![entry("Vid.mkv", true, SIZE_FLOOR + 1)];
    let (videos, subtitles) = collect_media_files(&entries);
    // The extension pass and the size-gated pass both contribute.
    assert_eq!(videos, vec!["Vid.mkv".to_string(), "Vid.mkv".to_string()]);
    assert!(subtitles.is_empty());
}

#[test]
fn small_video_taken_once() {
    let entries = vec![entry("Vid.mp4", true, 1024)];
    let (videos, _) = collect_media_files(&entries);
    assert_eq!(videos, vec!["Vid.mp4".to_string()]);
}

#[test]
fn size_floor_is_strict() {
    let entries = vec![entry("Vid.mkv", true, SIZE_FLOOR)];
    let (videos, _) = collect_media_files(&entries);
    assert_eq!(videos, vec!["Vid.mkv".to_string()]);
}

#[test]
fn subtitle_taken_by_both_passes() {
    let entries = vec![entry("01.srt", true, 10)];
    let (videos, subtitles) = collect_media_files(&entries);
    assert!(videos.is_empty());
    assert_eq!(subtitles, vec!["01.srt".to_string(), "01.srt".to_string()]);
}

#[test]
fn directory_taken_by_extension_pass_only() {
    let entries = vec![entry("season.mkv", false, 0)];
    let (videos, _) = collect_media_files(&entries);
    assert_eq!(videos, vec!["season.mkv".to_string()]);
}

#[test]
fn unrelated_names_ignored() {
    let entries = vec![
        entry("readme.txt", true, 10),
        entry("a.mkv.bak", true, u64::MAX),
        entry("noext", true, 10),
    ];
    let (videos, subtitles) = collect_media_files(&entries);
    assert!(videos.is_empty());
    assert!(subtitles.is_empty());
}

#[test]
fn listing_order_kept_within_each_pass() {
    let entries = vec![
        entry("b.mkv", true, 10),
        entry("a.mp4", true, 10),
        entry("z.srt", true, 10),
        entry("big.mkv", true, SIZE_FLOOR + 5),
    ];
    let (videos, subtitles) = collect_media_files(&entries);
    assert_eq!(
        videos,
        vec![
            "b.mkv".to_string(),
            "a.mp4".to_string(),
            "big.mkv".to_string(),
            "big.mkv".to_string()
        ]
    );
    assert_eq!(subtitles, vec!["z.srt".to_string(), "z.srt".to_string()]);
}
