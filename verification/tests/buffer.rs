use snapple::buffer::{
    cleanup_old_segments, clip_stamp, concat_args, is_segment_name, list_segments,
    sanitize_filename, save_clip, segment_file_pattern, FileEntry, LocalTime, SaveError, Segment,
};
use std::path::Path;

fn entry(path: &str, modified: Option<i128>) -> FileEntry {
    let file_name = Path::new(path).file_name().unwrap().to_string_lossy().to_string();
    FileEntry { file_name, path: path.to_string(), modified }
}

fn segment(path: &str, modified: i128) -> Segment {
    Segment { modified, path: path.to_string() }
}

fn paths(segments: &[Segment]) -> Vec<&str> {
    segments.iter().map(|s| s.path.as_str()).collect()
}

fn time(year: i32, month: u32, day: u32, hour: u32, minute: u32, second: u32) -> LocalTime {
    LocalTime { year, month, day, hour, minute, second }
}

#[test]
fn segment_listing_is_sorted_oldest_first() {
    let entries = vec![
        entry("t/b.mp4", Some(1_700_000_000_020_000_000)),
        entry("t/a.mp4", Some(1_700_000_000_000_000_000)),
    ];
    let segments = list_segments(&entries);
    let names: Vec<_> = segments
        .iter()
        .map(|s| Path::new(&s.path).file_name().unwrap().to_string_lossy().to_string())
        .collect();
    assert_eq!(names, vec!["a.mp4", "b.mp4"]);
}

#[test]
fn cleanup_with_zero_age_removes_all_existing_segments() {
    let entries = vec![entry("t/a.mp4", Some(1_000))];
    let segments = list_segments(&entries);
    // Five milliseconds later.
    let stale = cleanup_old_segments(&segments, 5_001_000, 0);
    assert_eq!(stale, vec!["t/a.mp4"]);
}

#[test]
fn sanitize_filename_keeps_safe_characters_and_normalizes_spaces() {
    assert_eq!(sanitize_filename("Halo Infinite"), "Halo_Infinite");
    assert_eq!(sanitize_filename("Risk: Rain/2?"), "Risk_Rain2");
}

#[test]
fn sanitize_filename_trims_and_keeps_other_alphabets() {
    assert_eq!(sanitize_filename("  NieR:Automata\u{2122} "), "NieRAutomata");
    assert_eq!(sanitize_filename("Pok\u{e9}mon - \u{9ed2}"), "Pok\u{e9}mon_-_\u{9ed2}");
    assert_eq!(sanitize_filename("a\tb_c"), "ab_c");
    assert_eq!(sanitize_filename("..\\../"), "");
}

#[test]
fn only_dated_mp4_files_are_segments() {
    let entries = vec![
        entry("t/concat.txt", Some(3)),
        entry("t/seg_0001.mp4", None),
        entry("t/seg_0002.mp4", Some(2)),
        entry("t/.mp4", Some(1)),
        entry("t/seg_0003.MP4", Some(1)),
        entry("t/old.mp4.bak", Some(1)),
    ];
    assert_eq!(paths(&list_segments(&entries)), vec!["t/seg_0002.mp4"]);
    assert!(is_segment_name("..mp4"));
    assert!(!is_segment_name("mp4"));
}

#[test]
fn segments_of_one_time_keep_their_order() {
    let entries = vec![
        entry("t/1.mp4", Some(5)),
        entry("t/2.mp4", Some(3)),
        entry("t/3.mp4", Some(5)),
        entry("t/4.mp4", Some(-1)),
        entry("t/5.mp4", Some(3)),
    ];
    assert_eq!(
        paths(&list_segments(&entries)),
        vec!["t/4.mp4", "t/2.mp4", "t/5.mp4", "t/1.mp4", "t/3.mp4"]
    );
}

#[test]
fn cleanup_spares_the_limit_and_the_future() {
    let segments = vec![
        segment("a", 0),
        segment("b", 1),
        segment("c", 20_000_000_000),
        segment("d", i128::MIN),
    ];
    let stale = cleanup_old_segments(&segments, 10_000_000_001, 10);
    assert_eq!(stale, vec!["a", "d"]);
}

#[test]
fn clip_leaves_out_the_segment_being_written() {
    let segments = vec![segment("C:\\t\\1.mp4", 1), segment("C:\\t\\2.mp4", 2), segment("3", 3)];
    let plan = save_clip(&segments, "Risk: Rain/2?", "20240102_030405", 12).unwrap();
    assert_eq!(plan.concat_list, "file 'C:/t/1.mp4'\nfile 'C:/t/2.mp4'");
    assert_eq!(plan.file_name, "Risk_Rain2_20240102_030405.mp4");
    let plan = save_clip(&segments, "G", "s", 1).unwrap();
    assert_eq!(plan.concat_list, "file 'C:/t/2.mp4'");
}

#[test]
fn a_single_segment_is_saved() {
    let plan = save_clip(&vec![segment("1", 1)], "G", "s", 12).unwrap();
    assert_eq!(plan.concat_list, "file '1'");
}

#[test]
fn nothing_to_save_is_an_error() {
    let error = save_clip(&vec![], "G", "s", 12).err().unwrap();
    assert_eq!(error, SaveError::NoSegments);
    assert_eq!(error.message(), "No segments available to save");
    let segments = vec![segment("1", 1), segment("2", 2)];
    assert_eq!(save_clip(&segments, "G", "s", 0).err(), Some(SaveError::NoSegments));
}

#[test]
fn full_clip_outlives_cleanup() {
    // Segments of 5 seconds and a clip of 12: the age is 65 seconds.
    let second: i128 = 1_000_000_000;
    let segments: Vec<Segment> =
        (0..20).map(|i| segment(&format!("{i}.mp4"), i as i128 * 5 * second)).collect();
    let now = 95 * second + 4 * second;
    let stale = cleanup_old_segments(&segments, now, 65);
    assert_eq!(stale.len(), 7);
    assert_eq!(stale[6], "6.mp4");
    let kept: Vec<Segment> = segments.into_iter().skip(7).collect();
    let plan = save_clip(&kept, "G", "s", 12).unwrap();
    assert_eq!(plan.concat_list.lines().count(), 12);
    assert!(plan.concat_list.starts_with("file '7.mp4'"));
    assert!(plan.concat_list.ends_with("file '18.mp4'"));
}

#[test]
fn stamps_are_padded_with_zeros() {
    assert_eq!(clip_stamp(&time(2024, 1, 2, 3, 4, 5)).as_deref(), Some("20240102_030405"));
    assert_eq!(clip_stamp(&time(2023, 12, 31, 23, 59, 59)).as_deref(), Some("20231231_235959"));
    assert_eq!(clip_stamp(&time(7, 1, 1, 0, 0, 0)).as_deref(), Some("00070101_000000"));
    assert_eq!(clip_stamp(&time(12345, 1, 1, 0, 0, 0)).as_deref(), Some("+123450101_000000"));
    assert_eq!(clip_stamp(&time(-4, 2, 29, 0, 0, 0)).as_deref(), Some("-00040229_000000"));
    assert_eq!(clip_stamp(&time(-12345, 1, 1, 0, 0, 0)).as_deref(), Some("-123450101_000000"));
    assert_eq!(clip_stamp(&time(262142, 1, 1, 0, 0, 0)).as_deref(), Some("+2621420101_000000"));
    assert!(clip_stamp(&time(-262143, 1, 1, 0, 0, 0)).is_some());
}

#[test]
fn moments_that_do_not_exist_have_no_stamp() {
    assert!(clip_stamp(&time(2023, 2, 29, 0, 0, 0)).is_none());
    assert!(clip_stamp(&time(1900, 2, 29, 0, 0, 0)).is_none());
    assert!(clip_stamp(&time(2000, 2, 29, 0, 0, 0)).is_some());
    assert!(clip_stamp(&time(2024, 4, 31, 0, 0, 0)).is_none());
    assert!(clip_stamp(&time(2024, 13, 1, 0, 0, 0)).is_none());
    assert!(clip_stamp(&time(2024, 1, 0, 0, 0, 0)).is_none());
    assert!(clip_stamp(&time(2024, 1, 1, 24, 0, 0)).is_none());
    assert!(clip_stamp(&time(2024, 1, 1, 0, 60, 0)).is_none());
    assert!(clip_stamp(&time(2024, 1, 1, 0, 0, 60)).is_none());
    assert!(clip_stamp(&time(262143, 1, 1, 0, 0, 0)).is_none());
    assert!(clip_stamp(&time(-262144, 1, 1, 0, 0, 0)).is_none());
}

#[test]
fn concat_copies_video_and_encodes_sound() {
    let args = concat_args("list.txt", "out.mp4");
    assert_eq!(
        args.join(" "),
        "-y -f concat -safe 0 -i list.txt -c:v copy -c:a aac -b:a 192k out.mp4"
    );
}

#[test]
fn files_named_after_the_pattern_are_segments() {
    assert_eq!(segment_file_pattern(), "seg_%04d.mp4");
    for n in [0, 7, 9_999, 10_000] {
        let name = segment_file_pattern().replace("%04d", &format!("{n:04}"));
        assert!(is_segment_name(&name), "{name}");
    }
}
