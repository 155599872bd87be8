use subrename::names::extension_of;
use subrename::names::has_subtitle_extension;
use subrename::names::has_subtitle_suffix;
use subrename::names::has_video_extension;
use subrename::names::has_video_suffix;
use subrename::names::make_new_name;

#[test]
fn video_extensions() {
    assert!(has_video_extension("a.mkv"));
    assert!(has_video_extension("a.MP4"));
    assert!(has_video_extension("b.c.mp4"));
    assert!(!has_video_extension("a.Mkv"));
    assert!(!has_video_extension("a.mks"));
    assert!(!has_video_extension("mkv"));
    // A leading dot marks a hidden file, not an extension.
    assert!(!has_video_extension(".mkv"));
}

#[test]
fn subtitle_extensions() {
    assert!(has_subtitle_extension("a.srt"));
    assert!(has_subtitle_extension("a.ass"));
    assert!(has_subtitle_extension("a.SSA"));
    assert!(has_subtitle_extension("a.SUB"));
    assert!(!has_subtitle_extension("a.sr"));
    assert!(!has_subtitle_extension("a.srt.bak"));
}

#[test]
fn video_suffixes() {
    assert!(has_video_suffix("a.mkv"));
    assert!(has_video_suffix("a.MKV"));
    // The suffix test matches the bare dotted extension too.
    assert!(has_video_suffix(".mkv"));
    assert!(!has_video_suffix("mkv"));
    assert!(!has_video_suffix("a.mkv.bak"));
}

#[test]
fn subtitle_suffixes() {
    assert!(has_subtitle_suffix("a.srt"));
    assert!(has_subtitle_suffix(".SUB"));
    assert!(!has_subtitle_suffix("srt"));
}

#[test]
fn extension_splitting() {
    assert_eq!(extension_of("a.mkv"), Some(String::from("mkv")));
    assert_eq!(extension_of("a.b.srt"), Some(String::from("srt")));
    assert_eq!(extension_of("a."), Some(String::from("")));
    assert_eq!(extension_of("plain"), None);
    assert_eq!(extension_of(".hidden"), None);
}

#[test]
fn new_name_takes_video_stem() {
    assert_eq!(make_new_name("Ep01.mkv", "srt"), "Ep01.srt");
    assert_eq!(make_new_name("Show.S01E07.mkv", "ASS"), "Show.S01E07.ASS");
    // A video name without a dot keeps its whole name as the stem.
    assert_eq!(make_new_name("video", "srt"), "video.srt");
}
