use subrename::plan::plan_renames;
use subrename::plan::PlanResult;

fn strings(names: &[&str]) -> Vec<String> {
    names.iter().map(|s| String::from(*s)).collect()
}

#[test]
fn pairs_by_episode_number() {
    let videos = strings(&["Ep01.mkv", "Ep02.mkv"]);
    let subtitles = strings(&["01.srt", "02.ass"]);
    match plan_renames(&videos, &subtitles) {
        PlanResult::Ready(plan) => {
            assert_eq!(plan.len(), 2);
            assert_eq!(plan[0].episode, 1);
            assert_eq!(plan[0].source, "01.srt");
            assert_eq!(plan[0].target, "Ep01.srt");
            assert_eq!(plan[1].episode, 2);
            assert_eq!(plan[1].source, "02.ass");
            assert_eq!(plan[1].target, "Ep02.ass");
        }
        _ => panic!("expected a plan"),
    }
}

#[test]
fn plan_sorted_by_episode_ascending() {
    let videos = strings(&["Ep02.mkv", "Ep01.mkv"]);
    let subtitles = strings(&["02.ass", "01.srt"]);
    match plan_renames(&videos, &subtitles) {
        PlanResult::Ready(plan) => {
            assert_eq!(plan[0].source, "01.srt");
            assert_eq!(plan[0].target, "Ep01.srt");
            assert_eq!(plan[1].source, "02.ass");
            assert_eq!(plan[1].target, "Ep02.ass");
        }
        _ => panic!("expected a plan"),
    }
}

#[test]
fn count_mismatch_reports_both_counts() {
    let videos = strings(&["Ep01.mkv"]);
    let subtitles = strings(&[]);
    match plan_renames(&videos, &subtitles) {
        PlanResult::CountMismatch { video_count, subtitle_count } => {
            assert_eq!(video_count, 1);
            assert_eq!(subtitle_count, 0);
        }
        _ => panic!("expected a count mismatch"),
    }
}

#[test]
fn no_matching_subtitles_yield_empty_plan() {
    let videos = strings(&["Ep01.mkv"]);
    let subtitles = strings(&["xx.srt"]);
    match plan_renames(&videos, &subtitles) {
        PlanResult::NoMatches => {}
        _ => panic!("expected no matches"),
    }
}

#[test]
fn unmatched_episode_numbers_are_skipped() {
    let videos = strings(&["Ep01.mkv", "Ep09.mkv"]);
    let subtitles = strings(&["01.srt", "05.srt"]);
    match plan_renames(&videos, &subtitles) {
        PlanResult::Ready(plan) => {
            assert_eq!(plan.len(), 1);
            assert_eq!(plan[0].source, "01.srt");
            assert_eq!(plan[0].target, "Ep01.srt");
        }
        _ => panic!("expected a plan"),
    }
}

#[test]
fn later_video_wins_on_equal_episode() {
    let videos = strings(&["Ep01.mkv", "Ep01b.mkv"]);
    let subtitles = strings(&["01.srt", "nonumber.ass"]);
    match plan_renames(&videos, &subtitles) {
        PlanResult::Ready(plan) => {
            assert_eq!(plan.len(), 1);
            assert_eq!(plan[0].target, "Ep01b.srt");
        }
        _ => panic!("expected a plan"),
    }
}

#[test]
fn subtitle_without_extension_is_skipped() {
    // E01 carries an episode number but no extension to preserve.
    let videos = strings(&["Ep01.mkv"]);
    let subtitles = strings(&["E01"]);
    match plan_renames(&videos, &subtitles) {
        PlanResult::NoMatches => {}
        _ => panic!("expected no matches"),
    }
}

#[test]
fn already_renamed_set_plans_no_ops() {
    let videos = strings(&["Ep01.mkv", "Ep02.mkv"]);
    let subtitles = strings(&["Ep01.srt", "Ep02.srt"]);
    match plan_renames(&videos, &subtitles) {
        PlanResult::Ready(plan) => {
            assert_eq!(plan.len(), 2);
            for op in &plan {
                assert_eq!(op.source, op.target);
            }
        }
        _ => panic!("expected a plan"),
    }
}

#[test]
fn subtitle_extension_case_is_preserved() {
    let videos = strings(&["Ep01.mkv"]);
    let subtitles = strings(&["01.SRT"]);
    match plan_renames(&videos, &subtitles) {
        PlanResult::Ready(plan) => {
            assert_eq!(plan[0].target, "Ep01.SRT");
        }
        _ => panic!("expected a plan"),
    }
}
