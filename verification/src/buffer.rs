//! Recorded segments: their order and age, and how a clip is put together
//! from the latest of them.

use vstd::prelude::*;

use crate::text;
use crate::text::{chars_of, has_suffix, push_all, replace_char, trim};

verus! {

// ---------------------------------------------------------------------------
// Segments
// ---------------------------------------------------------------------------

/// A file in the segment directory. Times are in nanoseconds since the Unix
/// epoch.
pub struct FileEntry {
    pub file_name: String,
    pub path: String,
    /// When it was last written, where that could be found out.
    pub modified: Option<i128>,
}

/// A recorded segment.
pub struct Segment {
    pub modified: i128,
    pub path: String,
}

/// A segment with its path as a text.
pub struct Seg {
    pub modified: int,
    pub path: Seq<char>,
}

impl View for Segment {
    type V = Seg;

    open spec fn view(&self) -> Seg {
        Seg { modified: self.modified as int, path: self.path@ }
    }
}

/// Segments as texts.
pub open spec fn seg_views(segments: Seq<Segment>) -> Seq<Seg> {
    segments.map_values(|s: Segment| s@)
}

/// Whether a file name has the extension `mp4`.
pub open spec fn is_mp4(file_name: Seq<char>) -> bool {
    ".mp4"@.is_suffix_of(file_name) && file_name.len() > 4
}

/// The files that are segments, in the order in which they were found.
pub open spec fn segments_among(entries: Seq<FileEntry>) -> Seq<Seg>
    decreases entries.len(),
{
    if entries.len() == 0 {
        Seq::empty()
    } else {
        let before = segments_among(entries.drop_last());
        let e = entries.last();
        match e.modified {
            Some(t) => if is_mp4(e.file_name@) {
                before.push(Seg { modified: t as int, path: e.path@ })
            } else {
                before
            },
            None => before,
        }
    }
}

/// A segment put in its place by time, after those that are not newer.
pub open spec fn put_in_order(sorted: Seq<Seg>, seg: Seg) -> Seq<Seg>
    decreases sorted.len(),
{
    if sorted.len() == 0 || sorted.last().modified <= seg.modified {
        sorted.push(seg)
    } else {
        put_in_order(sorted.drop_last(), seg).push(sorted.last())
    }
}

/// Segments from the oldest to the newest; those of one time stay in order.
pub open spec fn by_time(segments: Seq<Seg>) -> Seq<Seg>
    decreases segments.len(),
{
    if segments.len() == 0 {
        Seq::empty()
    } else {
        put_in_order(by_time(segments.drop_last()), segments.last())
    }
}

/// Whether a file name has the extension `mp4`.
pub fn is_segment_name(file_name: &str) -> (r: bool)
    ensures
        r == is_mp4(file_name@),
{
    has_suffix(file_name, ".mp4") && chars_of(file_name).len() > 4
}

/// The pattern after which ffmpeg names the segments: a number in at least four
/// digits takes the place of `%04d`.
pub fn segment_file_pattern() -> (pattern: &'static str)
    ensures
        pattern@ == "seg_%04d.mp4"@,
        is_mp4(pattern@),
{
    proof {
        reveal_strlit("seg_%04d.mp4");
        reveal_strlit(".mp4");
        let p = "seg_%04d.mp4"@;
        assert(p.skip(p.len() - 4) =~= ".mp4"@);
    }
    "seg_%04d.mp4"
}

/// The name that ffmpeg gives segment `n`.
pub open spec fn segment_file_name(n: nat) -> Seq<char> {
    "seg_"@ + four_digits(n) + ".mp4"@
}

/// Puts a segment in its place by time.
fn insert_by_time(segments: &mut Vec<Segment>, segment: Segment)
    ensures
        seg_views(final(segments)@) == put_in_order(seg_views(old(segments)@), segment@),
{
    let ghost all = seg_views(segments@);
    let mut at: usize = segments.len();
    assert(all.take(at as int) =~= all);
    assert(all.skip(at as int) =~= Seq::empty());
    assert(put_in_order(all, segment@) + Seq::<Seg>::empty() =~= put_in_order(all, segment@));
    while at > 0 && segments[at - 1].modified > segment.modified
        invariant
            at <= segments@.len(),
            segments@ == old(segments)@,
            all == seg_views(segments@),
            put_in_order(all, segment@) == put_in_order(all.take(at as int), segment@) + all.skip(
                at as int,
            ),
        decreases at,
    {
        proof {
            let front = all.take(at as int);
            assert(front.last() == segments@[at - 1]@);
            assert(front.drop_last() =~= all.take(at - 1));
            assert(put_in_order(all.take(at - 1), segment@).push(front.last()) + all.skip(at as int)
                =~= put_in_order(all.take(at - 1), segment@) + all.skip(at - 1));
        }
        at -= 1;
    }
    proof {
        let front = all.take(at as int);
        if at > 0 {
            assert(front.last() == segments@[at - 1]@);
        }
        assert(put_in_order(front, segment@) == front.push(segment@));
    }
    segments.insert(at, segment);
    assert(seg_views(segments@) =~= all.take(at as int).push(segment@) + all.skip(at as int));
}

/// The segments among the files of a directory, from the oldest to the newest.
pub fn list_segments(entries: &Vec<FileEntry>) -> (segments: Vec<Segment>)
    ensures
        seg_views(segments@) == by_time(segments_among(entries@)),
{
    let mut segments: Vec<Segment> = Vec::new();
    let mut i: usize = 0;
    assert(seg_views(segments@) =~= by_time(segments_among(entries@.take(0))));
    while i < entries.len()
        invariant
            i <= entries@.len(),
            seg_views(segments@) == by_time(segments_among(entries@.take(i as int))),
        decreases entries@.len() - i,
    {
        let ghost before = segments_among(entries@.take(i as int));
        proof {
            assert(entries@.take(i + 1).drop_last() =~= entries@.take(i as int));
            assert(entries@.take(i + 1).last() == entries@[i as int]);
        }
        if is_segment_name(entries[i].file_name.as_str()) {
            if let Some(modified) = entries[i].modified {
                let segment = Segment { modified, path: entries[i].path.clone() };
                proof {
                    assert(before.push(segment@).drop_last() =~= before);
                }
                insert_by_time(&mut segments, segment);
            }
        }
        i += 1;
    }
    assert(entries@.take(i as int) =~= entries@);
    segments
}

/// Whether a segment is more than `max_age_secs` old at time `now`.
pub open spec fn is_stale(seg: Seg, now: int, max_age_secs: int) -> bool {
    now - seg.modified > max_age_secs * 1_000_000_000
}

/// The paths of the segments that are too old, in order.
pub open spec fn stale_paths(segments: Seq<Seg>, now: int, max_age_secs: int) -> Seq<Seq<char>>
    decreases segments.len(),
{
    if segments.len() == 0 {
        Seq::empty()
    } else if is_stale(segments.last(), now, max_age_secs) {
        stale_paths(segments.drop_last(), now, max_age_secs).push(segments.last().path)
    } else {
        stale_paths(segments.drop_last(), now, max_age_secs)
    }
}

/// The paths of the segments that are more than `max_age_secs` old at time
/// `now` and are to be deleted. A segment from the future is kept.
pub fn cleanup_old_segments(segments: &Vec<Segment>, now: i128, max_age_secs: u64) -> (paths: Vec<
    String,
>)
    ensures
        text::texts(paths@) == stale_paths(seg_views(segments@), now as int, max_age_secs as int),
{
    let max_age: i128 = max_age_secs as i128 * 1_000_000_000;
    let ghost views = seg_views(segments@);
    let mut paths: Vec<String> = Vec::new();
    let mut i: usize = 0;
    assert(text::texts(paths@) =~= stale_paths(views.take(0), now as int, max_age_secs as int));
    while i < segments.len()
        invariant
            views == seg_views(segments@),
            max_age == max_age_secs * 1_000_000_000,
            i <= segments@.len(),
            text::texts(paths@) == stale_paths(
                views.take(i as int),
                now as int,
                max_age_secs as int,
            ),
        decreases segments@.len() - i,
    {
        proof {
            assert(views.take(i + 1).drop_last() =~= views.take(i as int));
            assert(views.take(i + 1).last() == segments@[i as int]@);
        }
        let modified: i128 = segments[i].modified;
        let stale: bool = match now.checked_sub(modified) {
            Some(age) => age > max_age,
            None => modified < now,
        };
        if stale {
            let ghost before = text::texts(paths@);
            paths.push(segments[i].path.clone());
            assert(text::texts(paths@) =~= before.push(segments@[i as int].path@));
        }
        i += 1;
    }
    assert(views.take(i as int) =~= views);
    paths
}

// ---------------------------------------------------------------------------
// Clips
// ---------------------------------------------------------------------------

/// The segments that a clip is made of: the last `max` of those that are
/// finished. The newest may still be being written, and is left out unless it
/// is the only one.
pub open spec fn clip_segments(segments: Seq<Seg>, max: nat) -> Seq<Seg> {
    let finished = if segments.len() > 1 {
        segments.drop_last()
    } else {
        segments
    };
    if finished.len() > max {
        finished.skip(finished.len() - max)
    } else {
        finished
    }
}

/// The line that names a segment to ffmpeg.
pub open spec fn concat_line(path: Seq<char>) -> Seq<char> {
    "file '"@ + text::replaced(path, '\\', '/') + "'"@
}

/// The list that names segments to ffmpeg, a line for each.
pub open spec fn concat_text(segments: Seq<Seg>) -> Seq<char>
    decreases segments.len(),
{
    if segments.len() == 0 {
        Seq::empty()
    } else if segments.len() == 1 {
        concat_line(segments[0].path)
    } else {
        concat_text(segments.drop_last()) + "\n"@ + concat_line(segments.last().path)
    }
}

/// Whether a character is kept in a file name.
pub open spec fn is_safe(c: char) -> bool {
    text::alphanumeric(c) || c == ' ' || c == '-' || c == '_'
}

/// The characters of `s` that are kept in a file name.
pub open spec fn safe_chars(s: Seq<char>) -> Seq<char>
    decreases s.len(),
{
    if s.len() == 0 {
        Seq::empty()
    } else if is_safe(s.last()) {
        safe_chars(s.drop_last()).push(s.last())
    } else {
        safe_chars(s.drop_last())
    }
}

/// A name made fit for a file name: letters, digits, spaces, `-` and `_` are
/// kept, the ends are trimmed, and a space becomes `_`.
pub open spec fn sanitized(name: Seq<char>) -> Seq<char> {
    text::replaced(text::trimmed(safe_chars(name)), ' ', '_')
}

/// The characters of an ASCII text that are kept in a file name.
pub open spec fn ascii_safe_chars(s: Seq<char>) -> Seq<char>
    decreases s.len(),
{
    if s.len() == 0 {
        Seq::empty()
    } else {
        let before = ascii_safe_chars(s.drop_last());
        let c = s.last();
        if text::ascii_alphanumeric(c) || c == ' ' || c == '-' || c == '_' {
            before.push(c)
        } else {
            before
        }
    }
}

/// An ASCII name made fit for a file name.
pub open spec fn ascii_sanitized(name: Seq<char>) -> Seq<char> {
    text::replaced(text::trimmed(ascii_safe_chars(name)), ' ', '_')
}

/// A name made fit for a file name: letters, digits, spaces, `-` and `_` are
/// kept, the ends are trimmed, and a space becomes `_`.
pub fn sanitize_filename(name: &str) -> (safe: String)
    ensures
        safe@ == sanitized(name@),
        vstd::utf8::is_ascii_chars(name@) ==> safe@ == ascii_sanitized(name@),
        forall|i: int|
            0 <= i < safe@.len() && (#[trigger] safe@[i] as u32) < 128 ==> text::ascii_alphanumeric(
                safe@[i],
            ) || safe@[i] == '-' || safe@[i] == '_',
{
    let chars = chars_of(name);
    let mut kept: Vec<char> = Vec::new();
    let mut i: usize = 0;
    assert(kept@ =~= safe_chars(name@.take(0)));
    assert(kept@ =~= ascii_safe_chars(name@.take(0)));
    while i < chars.len()
        invariant
            chars@ == name@,
            i <= chars@.len(),
            kept@ == safe_chars(name@.take(i as int)),
            vstd::utf8::is_ascii_chars(name@) ==> kept@ == ascii_safe_chars(name@.take(i as int)),
            forall|k: int|
                0 <= k < kept@.len() && (#[trigger] kept@[k] as u32) < 128
                    ==> text::ascii_alphanumeric(kept@[k]) || kept@[k] == ' ' || kept@[k] == '-'
                    || kept@[k] == '_',
        decreases chars@.len() - i,
    {
        proof {
            assert(name@.take(i + 1).drop_last() =~= name@.take(i as int));
            assert(name@.take(i + 1).last() == chars@[i as int]);
        }
        let c: char = chars[i];
        if c.is_alphanumeric() || c == ' ' || c == '-' || c == '_' {
            kept.push(c);
        }
        i += 1;
    }
    assert(name@.take(i as int) =~= name@);
    let trimmed = trim(&kept);
    proof {
        text::lemma_trimmed(kept@);
        let cut = choose|cut: (int, int)|
            0 <= cut.0 <= cut.1 <= kept@.len() && trimmed@ == #[trigger] kept@.subrange(
                cut.0,
                cut.1,
            );
        assert forall|k: int|
            0 <= k < trimmed@.len() && (#[trigger] trimmed@[k] as u32)
                < 128 implies text::ascii_alphanumeric(trimmed@[k]) || trimmed@[k] == ' '
            || trimmed@[k] == '-' || trimmed@[k] == '_' by {
            assert(trimmed@[k] == kept@[cut.0 + k]);
        }
    }
    replace_char(trimmed.as_str(), ' ', '_')
}

/// A moment of local time.
pub struct LocalTime {
    pub year: i32,
    pub month: u32,
    pub day: u32,
    pub hour: u32,
    pub minute: u32,
    pub second: u32,
}

/// The number of days of a month.
pub open spec fn days_in_month(year: int, month: int) -> int {
    if month == 2 {
        if year % 4 == 0 && (year % 100 != 0 || year % 400 == 0) {
            29
        } else {
            28
        }
    } else if month == 4 || month == 6 || month == 9 || month == 11 {
        30
    } else {
        31
    }
}

/// Whether there is such a moment in the years that chrono counts.
pub open spec fn time_exists(
    year: i32,
    month: u32,
    day: u32,
    hour: u32,
    minute: u32,
    second: u32,
) -> bool {
    &&& -262143 <= year <= 262142
    &&& 1 <= month <= 12
    &&& 1 <= day <= days_in_month(year as int, month as int)
    &&& hour < 24
    &&& minute < 60
    &&& second < 60
}

/// A number below a hundred, in two digits.
pub open spec fn two_digits(n: u32) -> Seq<char> {
    seq![text::digit((n / 10) as nat), text::digit((n % 10) as nat)]
}

/// A number in four digits, or in more where it needs them.
pub open spec fn four_digits(n: nat) -> Seq<char> {
    if n < 10_000 {
        seq![
            text::digit(n / 1000),
            text::digit(n / 100 % 10),
            text::digit(n / 10 % 10),
            text::digit(n % 10),
        ]
    } else {
        text::decimal(n)
    }
}

/// A year in at least four digits, with a sign outside the years 0 to 9999.
pub open spec fn year_text(year: int) -> Seq<char> {
    if year < 0 {
        seq!['-'] + four_digits((-year) as nat)
    } else if year < 10_000 {
        four_digits(year as nat)
    } else {
        seq!['+'] + four_digits(year as nat)
    }
}

/// The stamp of a moment: date and time in digits, with `_` between them.
pub open spec fn stamp_text(
    year: i32,
    month: u32,
    day: u32,
    hour: u32,
    minute: u32,
    second: u32,
) -> Seq<char> {
    year_text(year as int) + two_digits(month) + two_digits(day) + seq!['_'] + two_digits(hour)
        + two_digits(minute) + two_digits(second)
}

/// Formats a moment with chrono: `NaiveDate::from_ymd_opt` and
/// `NaiveDate::and_hms_opt` give the moment where it exists, and
/// `NaiveDateTime::format` writes its year, month, day, hour, minute and
/// second in digits, padded with zeros.
#[verifier::external_body]
fn format_time(
    year: i32,
    month: u32,
    day: u32,
    hour: u32,
    minute: u32,
    second: u32,
    format: &str,
) -> (out: Option<String>)
    requires
        format@ == "%Y%m%d_%H%M%S"@,
    ensures
        match out {
            Some(s) => time_exists(year, month, day, hour, minute, second) && s@ == stamp_text(
                year,
                month,
                day,
                hour,
                minute,
                second,
            ),
            None => !time_exists(year, month, day, hour, minute, second),
        },
{
    let date = chrono::NaiveDate::from_ymd_opt(year, month, day)?;
    let moment = date.and_hms_opt(hour, minute, second)?;
    Some(moment.format(format).to_string())
}

/// The stamp that a clip saved at this moment carries in its name; none where
/// there is no such moment.
pub fn clip_stamp(time: &LocalTime) -> (stamp: Option<String>)
    ensures
        match stamp {
            Some(s) => time_exists(
                time.year,
                time.month,
                time.day,
                time.hour,
                time.minute,
                time.second,
            ) && s@ == stamp_text(
                time.year,
                time.month,
                time.day,
                time.hour,
                time.minute,
                time.second,
            ),
            None => !time_exists(
                time.year,
                time.month,
                time.day,
                time.hour,
                time.minute,
                time.second,
            ),
        },
{
    format_time(
        time.year,
        time.month,
        time.day,
        time.hour,
        time.minute,
        time.second,
        "%Y%m%d_%H%M%S",
    )
}

/// What is needed to put a clip together.
pub struct ClipPlan {
    /// The list of segments that ffmpeg reads.
    pub concat_list: String,
    /// The name of the clip's file.
    pub file_name: String,
}

/// Why a clip cannot be put together.
#[derive(Debug, Clone, Copy, PartialEq, Eq, Structural)]
pub enum SaveError {
    NoSegments,
}

impl SaveError {
    /// The error in words.
    pub fn message(&self) -> (m: &'static str)
        ensures
            m@ == "No segments available to save"@,
    {
        "No segments available to save"
    }
}

/// The line that names a segment to ffmpeg.
fn push_concat_line(out: &mut String, path: &str)
    ensures
        final(out)@ == old(out)@ + concat_line(path@),
{
    let forward = replace_char(path, '\\', '/');
    out.append("file '");
    out.append(forward.as_str());
    out.append("'");
    assert(out@ =~= old(out)@ + concat_line(path@));
}

/// Plans the clip of a game from the segments, which are in order of time:
/// the latest `max_segments` finished ones, under a name made of the game and
/// the stamp. There is nothing to save where no segment is left.
pub fn save_clip(
    segments: &Vec<Segment>,
    game_name: &str,
    stamp: &str,
    max_segments: usize,
) -> (plan: Result<ClipPlan, SaveError>)
    ensures
        match plan {
            Ok(p) => {
                let chosen = clip_segments(seg_views(segments@), max_segments as nat);
                &&& chosen.len() > 0
                &&& p.concat_list@ == concat_text(chosen)
                &&& p.file_name@ == sanitized(game_name@) + "_"@ + stamp@ + ".mp4"@
                &&& vstd::utf8::is_ascii_chars(game_name@) ==> p.file_name@ == ascii_sanitized(
                    game_name@,
                ) + "_"@ + stamp@ + ".mp4"@
            },
            Err(e) => e == SaveError::NoSegments && clip_segments(
                seg_views(segments@),
                max_segments as nat,
            ).len() == 0,
        },
{
    let ghost views = seg_views(segments@);
    let end: usize = if segments.len() > 1 {
        segments.len() - 1
    } else {
        segments.len()
    };
    let start: usize = end.saturating_sub(max_segments);
    let ghost chosen = clip_segments(views, max_segments as nat);
    assert(chosen =~= views.subrange(start as int, end as int));
    if start == end {
        return Err(SaveError::NoSegments);
    }
    let mut concat_list = String::new();
    let mut i: usize = start;
    assert(chosen.take(0) =~= Seq::empty());
    while i < end
        invariant
            start <= i <= end <= segments@.len(),
            views == seg_views(segments@),
            chosen == views.subrange(start as int, end as int),
            concat_list@ == concat_text(chosen.take(i - start)),
        decreases end - i,
    {
        proof {
            let grown = chosen.take(i + 1 - start);
            assert(grown.drop_last() =~= chosen.take(i - start));
            assert(grown.last() == segments@[i as int]@);
            if i == start {
                assert(concat_list@ + concat_line(grown[0].path) =~= concat_line(grown[0].path));
            }
        }
        if i > start {
            concat_list.append("\n");
        }
        push_concat_line(&mut concat_list, segments[i].path.as_str());
        i += 1;
    }
    assert(chosen.take(i - start) =~= chosen);
    let mut file_name = sanitize_filename(game_name);
    file_name.append("_");
    file_name.append(stamp);
    file_name.append(".mp4");
    Ok(ClipPlan { concat_list, file_name })
}

/// The arguments with which ffmpeg puts a clip together: the video is copied,
/// the sound is encoded anew.
pub fn concat_args(concat_file: &str, output: &str) -> (args: Vec<String>)
    ensures
        text::texts(args@) == seq![
            "-y"@,
            "-f"@,
            "concat"@,
            "-safe"@,
            "0"@,
            "-i"@,
            concat_file@,
            "-c:v"@,
            "copy"@,
            "-c:a"@,
            "aac"@,
            "-b:a"@,
            "192k"@,
            output@,
        ],
{
    let mut args: Vec<String> = Vec::new();
    let list = [
        "-y",
        "-f",
        "concat",
        "-safe",
        "0",
        "-i",
        concat_file,
        "-c:v",
        "copy",
        "-c:a",
        "aac",
        "-b:a",
        "192k",
        output,
    ];
    push_all(&mut args, &list);
    args
}

// ---------------------------------------------------------------------------
// Laws
// ---------------------------------------------------------------------------

/// Whether segments go from the oldest to the newest.
pub open spec fn in_order(segments: Seq<Seg>) -> bool {
    forall|i: int, j: int|
        0 <= i <= j < segments.len() ==> segments[i].modified <= segments[j].modified
}

/// Every file that ffmpeg names after the pattern is taken for a segment.
pub proof fn law_numbered_files_are_segments(n: nat)
    ensures
        is_mp4(segment_file_name(n)),
{
    reveal_strlit("seg_");
    reveal_strlit(".mp4");
    let name = segment_file_name(n);
    assert(name.skip(name.len() - 4) =~= ".mp4"@);
}

/// Segments put in order of time are in order, and they are the same segments.
pub proof fn law_by_time_sorts(segments: Seq<Seg>)
    ensures
        in_order(by_time(segments)),
        by_time(segments).to_multiset() == segments.to_multiset(),
    decreases segments.len(),
{
    broadcast use vstd::seq_lib::group_to_multiset_ensures;

    if segments.len() > 0 {
        law_by_time_sorts(segments.drop_last());
        lemma_put_in_order(by_time(segments.drop_last()), segments.last());
        assert(segments =~= segments.drop_last().push(segments.last()));
    }
}

proof fn lemma_put_in_order(sorted: Seq<Seg>, seg: Seg)
    requires
        in_order(sorted),
    ensures
        in_order(put_in_order(sorted, seg)),
        put_in_order(sorted, seg).to_multiset() == sorted.to_multiset().insert(seg),
        put_in_order(sorted, seg).len() > 0,
        forall|i: int|
            0 <= i < put_in_order(sorted, seg).len() ==> (#[trigger] put_in_order(
                sorted,
                seg,
            )[i]).modified <= if sorted.len() > 0 && sorted.last().modified > seg.modified {
                sorted.last().modified
            } else {
                seg.modified
            },
    decreases sorted.len(),
{
    broadcast use vstd::seq_lib::group_to_multiset_ensures;

    if sorted.len() == 0 || sorted.last().modified <= seg.modified {
    } else {
        lemma_put_in_order(sorted.drop_last(), seg);
        assert(sorted =~= sorted.drop_last().push(sorted.last()));
        assert(sorted.drop_last().to_multiset().insert(seg).insert(sorted.last())
            =~= sorted.drop_last().to_multiset().insert(sorted.last()).insert(seg));
    }
}

/// The segments of one time, in order.
pub open spec fn at_time(segments: Seq<Seg>, time: int) -> Seq<Seg>
    decreases segments.len(),
{
    if segments.len() == 0 {
        Seq::empty()
    } else if segments.last().modified == time {
        at_time(segments.drop_last(), time).push(segments.last())
    } else {
        at_time(segments.drop_last(), time)
    }
}

/// Segments of one time keep their order when they are put in order of time.
pub proof fn law_by_time_is_stable(segments: Seq<Seg>, time: int)
    ensures
        at_time(by_time(segments), time) == at_time(segments, time),
    decreases segments.len(),
{
    if segments.len() > 0 {
        law_by_time_is_stable(segments.drop_last(), time);
        lemma_put_keeps_times(by_time(segments.drop_last()), segments.last(), time);
    }
}

proof fn lemma_put_keeps_times(sorted: Seq<Seg>, seg: Seg, time: int)
    ensures
        at_time(put_in_order(sorted, seg), time) == if seg.modified == time {
            at_time(sorted, time).push(seg)
        } else {
            at_time(sorted, time)
        },
    decreases sorted.len(),
{
    if sorted.len() == 0 || sorted.last().modified <= seg.modified {
        assert(sorted.push(seg).drop_last() =~= sorted);
    } else {
        let front = put_in_order(sorted.drop_last(), seg);
        lemma_put_keeps_times(sorted.drop_last(), seg, time);
        assert(front.push(sorted.last()).drop_last() =~= front);
    }
}

/// Segments that are already in order stay as they are.
pub proof fn law_sorted_stays(segments: Seq<Seg>)
    requires
        in_order(segments),
    ensures
        by_time(segments) == segments,
    decreases segments.len(),
{
    if segments.len() > 0 {
        law_sorted_stays(segments.drop_last());
        assert(segments =~= segments.drop_last().push(segments.last()));
    }
}

/// A clip is made of at most `max` segments, one after the other in time, and
/// none of them is the newest unless it is the only one; and there are no
/// segments for a clip only where none was recorded or none was asked for.
pub proof fn law_clip_is_the_latest(segments: Seq<Seg>, max: nat)
    ensures
        clip_segments(segments, max).len() <= max,
        clip_segments(segments, max).len() == 0 <==> segments.len() == 0 || max == 0,
        segments.len() > max ==> clip_segments(segments, max).len() == max,
        segments.len() > 1 ==> clip_segments(segments, max).len() == if segments.len() - 1 < max {
            segments.len() - 1
        } else {
            max as int
        },
        segments.len() <= 1 ==> clip_segments(segments, max).len() == if segments.len() < max {
            segments.len()
        } else {
            max
        },
        segments.len() > 1 ==> clip_segments(segments, max).is_suffix_of(segments.drop_last()),
        segments.len() <= 1 ==> clip_segments(segments, max).is_suffix_of(segments),
        in_order(segments) ==> in_order(clip_segments(segments, max)),
{
    let finished = if segments.len() > 1 {
        segments.drop_last()
    } else {
        segments
    };
    let chosen = clip_segments(segments, max);
    assert(chosen =~= finished.skip(finished.len() - chosen.len()));
    assert(chosen =~= finished.subrange(finished.len() - chosen.len(), finished.len() as int));
}

/// While segments come at least every `segment_time` seconds, cleaning up
/// with the age of a full clip and one segment more leaves the segments of a
/// full clip and the one that is being written.
pub proof fn law_cleanup_leaves_a_full_clip(
    segments: Seq<Seg>,
    now: int,
    segment_time: nat,
    clip: nat,
    k: int,
)
    requires
        0 <= k <= clip,
        k < segments.len(),
        now - segments.last().modified <= segment_time * 1_000_000_000,
        forall|i: int|
            0 < i < segments.len() ==> (#[trigger] segments[i]).modified - segments[i - 1].modified
                <= segment_time * 1_000_000_000,
    ensures
        !is_stale(segments[segments.len() - 1 - k], now, (segment_time * (clip + 1)) as int),
{
    lemma_spacing(segments, segment_time, k);
    assert((k + 1) * segment_time <= (clip + 1) * segment_time) by (nonlinear_arith)
        requires
            k <= clip,
    ;
    assert((k + 1) * segment_time == k * segment_time + segment_time) by (nonlinear_arith);
    assert((clip + 1) * segment_time == segment_time * (clip + 1)) by (nonlinear_arith);
}

proof fn lemma_spacing(segments: Seq<Seg>, segment_time: nat, k: int)
    requires
        0 <= k < segments.len(),
        forall|i: int|
            0 < i < segments.len() ==> (#[trigger] segments[i]).modified - segments[i - 1].modified
                <= segment_time * 1_000_000_000,
    ensures
        segments.last().modified - segments[segments.len() - 1 - k].modified <= (k * segment_time)
            * 1_000_000_000,
    decreases k,
{
    if k > 0 {
        lemma_spacing(segments, segment_time, k - 1);
        let i = segments.len() - k;
        assert(segments[i].modified - segments[i - 1].modified <= segment_time * 1_000_000_000);
        assert(k * segment_time == (k - 1) * segment_time + segment_time) by (nonlinear_arith);
    }
}

/// Cleaning up with no age at all removes every segment that was written
/// before.
pub proof fn law_zero_age_removes_all(segments: Seq<Seg>, now: int)
    requires
        forall|i: int| 0 <= i < segments.len() ==> (#[trigger] segments[i]).modified < now,
    ensures
        stale_paths(segments, now, 0) == segments.map_values(|s: Seg| s.path),
    decreases segments.len(),
{
    if segments.len() > 0 {
        law_zero_age_removes_all(segments.drop_last(), now);
        assert(segments[segments.len() - 1].modified < now);
        assert(segments.map_values(|s: Seg| s.path) =~= segments.drop_last().map_values(
            |s: Seg| s.path,
        ).push(segments.last().path));
    } else {
        assert(segments.map_values(|s: Seg| s.path) =~= Seq::empty());
    }
}

/// A name made fit for a file name holds letters, digits, `-` and `_` alone.
pub proof fn law_file_name_is_safe(name: Seq<char>)
    ensures
        forall|i: int|
            0 <= i < sanitized(name).len() ==> text::alphanumeric(#[trigger] sanitized(name)[i])
                || sanitized(name)[i] == '-' || sanitized(name)[i] == '_',
{
    let kept = safe_chars(name);
    lemma_safe_chars(name);
    text::lemma_trimmed(kept);
    let cut = choose|cut: (int, int)|
        0 <= cut.0 <= cut.1 <= kept.len() && text::trimmed(kept) == #[trigger] kept.subrange(
            cut.0,
            cut.1,
        );
    assert forall|i: int| 0 <= i < sanitized(name).len() implies text::alphanumeric(
        #[trigger] sanitized(name)[i],
    ) || sanitized(name)[i] == '-' || sanitized(name)[i] == '_' by {
        assert(text::trimmed(kept)[i] == kept[cut.0 + i]);
    }
}

proof fn lemma_safe_chars(s: Seq<char>)
    ensures
        forall|i: int| 0 <= i < safe_chars(s).len() ==> is_safe(#[trigger] safe_chars(s)[i]),
    decreases s.len(),
{
    if s.len() > 0 {
        lemma_safe_chars(s.drop_last());
        let before = safe_chars(s.drop_last());
        assert forall|i: int| 0 <= i < safe_chars(s).len() implies is_safe(
            #[trigger] safe_chars(s)[i],
        ) by {
            if i < before.len() {
                assert(safe_chars(s)[i] == before[i]);
            }
        }
    }
}

/// A clip names every finished segment that fits into it: segment `i` is in the
/// clip exactly where it is not the newest of several, and no more than `max`
/// finished segments come from it on; and it stands there in its own place.
pub proof fn law_clip_leaves_out_nothing_that_fits(segments: Seq<Seg>, max: nat, i: int)
    requires
        0 <= i < segments.len(),
    ensures
        ({
            let clip = clip_segments(segments, max);
            let finished = if segments.len() > 1 {
                segments.len() - 1
            } else {
                segments.len() as int
            };
            i < finished && finished - i <= max ==> 0 <= clip.len() - (finished - i) && clip[clip.len()
                - (finished - i)] == segments[i]
        }),
{
    law_clip_is_the_latest(segments, max);
    let clip = clip_segments(segments, max);
    let finished = if segments.len() > 1 {
        segments.drop_last()
    } else {
        segments
    };
    assert(clip.is_suffix_of(finished));
    if i < finished.len() && finished.len() - i <= max {
        let at = clip.len() - (finished.len() - i);
        assert(clip[at] == finished.skip(finished.len() - clip.len())[at]);
        assert(finished[i] == segments[i]);
    }
}

/// A file is a segment exactly where its name is a stem and `.mp4`.
pub proof fn law_segment_names_have_a_stem(stem: Seq<char>, name: Seq<char>)
    ensures
        is_mp4(stem + ".mp4"@) <==> stem.len() > 0,
        is_mp4(name) ==> name.len() > 4 && name == name.take(name.len() - 4) + ".mp4"@,
{
    reveal_strlit(".mp4");
    let n = stem + ".mp4"@;
    assert(n.skip(n.len() - 4) =~= ".mp4"@);
    if is_mp4(name) {
        assert(name =~= name.take(name.len() - 4) + name.skip(name.len() - 4));
    }
}

/// Whether a file is a segment depends on that file alone, and the order of
/// files is that of their segments: a file that is one gives a segment with its
/// time and path, any other gives none.
pub proof fn law_segments_are_found_file_by_file(entries: Seq<FileEntry>, more: Seq<FileEntry>)
    ensures
        segments_among(entries + more) == segments_among(entries) + segments_among(more),
        entries.len() == 1 ==> segments_among(entries) == if is_mp4(entries[0].file_name@)
            && entries[0].modified is Some {
            seq![
                Seg { modified: entries[0].modified->0 as int, path: entries[0].path@ },
            ]
        } else {
            Seq::empty()
        },
        entries.len() == 0 ==> segments_among(entries) == Seq::<Seg>::empty(),
    decreases more.len(),
{
    if more.len() == 0 {
        assert(entries + more =~= entries);
        assert(segments_among(entries) + segments_among(more) =~= segments_among(entries));
    } else {
        let front = more.drop_last();
        law_segments_are_found_file_by_file(entries, front);
        assert((entries + more).drop_last() =~= entries + front);
        assert((entries + more).last() == more.last());
        assert(segments_among(entries + more) =~= segments_among(entries) + segments_among(more));
    }
    if entries.len() == 1 {
        assert(entries.drop_last() =~= Seq::empty());
        assert(segments_among(entries.drop_last()) =~= Seq::empty());
    }
}

/// Whether a segment is deleted depends on that segment alone: it is where more
/// than `max_age_secs` seconds have passed since it was written.
pub proof fn law_old_segments_are_deleted_one_by_one(
    segments: Seq<Seg>,
    more: Seq<Seg>,
    now: int,
    max_age_secs: int,
)
    ensures
        stale_paths(segments + more, now, max_age_secs) == stale_paths(segments, now, max_age_secs)
            + stale_paths(more, now, max_age_secs),
        segments.len() == 1 && now > segments[0].modified + max_age_secs * 1_000_000_000
            ==> stale_paths(segments, now, max_age_secs) == seq![segments[0].path],
        segments.len() == 1 && now <= segments[0].modified + max_age_secs * 1_000_000_000
            ==> stale_paths(segments, now, max_age_secs) == Seq::<Seq<char>>::empty(),
        segments.len() == 0 ==> stale_paths(segments, now, max_age_secs)
            == Seq::<Seq<char>>::empty(),
    decreases more.len(),
{
    if more.len() == 0 {
        assert(segments + more =~= segments);
        assert(stale_paths(segments, now, max_age_secs) + stale_paths(more, now, max_age_secs)
            =~= stale_paths(segments, now, max_age_secs));
    } else {
        let front = more.drop_last();
        law_old_segments_are_deleted_one_by_one(segments, front, now, max_age_secs);
        assert((segments + more).drop_last() =~= segments + front);
        assert((segments + more).last() == more.last());
        assert(stale_paths(segments + more, now, max_age_secs) =~= stale_paths(
            segments,
            now,
            max_age_secs,
        ) + stale_paths(more, now, max_age_secs));
    }
    if segments.len() == 1 {
        assert(segments.drop_last() =~= Seq::empty());
        assert(stale_paths(segments.drop_last(), now, max_age_secs) =~= Seq::empty());
        assert(stale_paths(segments, now, max_age_secs) =~= if is_stale(
            segments[0],
            now,
            max_age_secs,
        ) {
            seq![segments[0].path]
        } else {
            Seq::empty()
        });
    }
}

/// The list that ffmpeg reads has a line for each segment, in order: the path
/// between `file '` and `'`, of the same length, with each backslash made a
/// slash and nothing else changed; and lists are joined by a line break.
pub proof fn law_list_names_each_segment(segments: Seq<Seg>, more: Seq<Seg>, k: int)
    ensures
        segments.len() == 1 ==> {
            let line = concat_text(segments);
            let path = segments[0].path;
            &&& line.len() == 6 + path.len() + 1
            &&& line.take(6) == "file '"@
            &&& line.last() == '\''
            &&& 0 <= k < path.len() ==> line[6 + k] == if path[k] == '\\' {
                '/'
            } else {
                path[k]
            }
        },
        segments.len() > 0 && more.len() > 0 ==> concat_text(segments + more) == concat_text(
            segments,
        ) + seq!['\n'] + concat_text(more),
        segments.len() == 0 ==> concat_text(segments).len() == 0,
    decreases more.len(),
{
    reveal_strlit("file '");
    reveal_strlit("'");
    reveal_strlit("\n");
    assert("\n"@ =~= seq!['\n']);
    if segments.len() == 1 {
        let line = concat_text(segments);
        assert(line.take(6) =~= "file '"@);
    }
    if segments.len() > 0 && more.len() > 0 {
        let front = more.drop_last();
        assert((segments + more).drop_last() =~= segments + front);
        assert((segments + more).last() == more.last());
        if front.len() > 0 {
            law_list_names_each_segment(segments, front, k);
        } else {
            assert(segments + front =~= segments);
        }
        assert(concat_text(segments + more) =~= concat_text(segments) + seq!['\n'] + concat_text(
            more,
        ));
    }
}

/// Letters, digits, spaces, `-` and `_` of a name are kept, whatever stands
/// around them, and all else is dropped.
pub proof fn law_safe_characters_are_kept(a: Seq<char>, c: char, b: Seq<char>)
    ensures
        text::alphanumeric(c) || c == ' ' || c == '-' || c == '_' ==> safe_chars(a.push(c) + b)
            == safe_chars(a).push(c) + safe_chars(b),
        !(text::alphanumeric(c) || c == ' ' || c == '-' || c == '_') ==> safe_chars(a.push(c) + b)
            == safe_chars(a) + safe_chars(b) && sanitized(a.push(c) + b) == sanitized(a + b),
        text::ascii_alphanumeric(c) || c == ' ' || c == '-' || c == '_' ==> ascii_safe_chars(
            a.push(c) + b,
        ) == ascii_safe_chars(a).push(c) + ascii_safe_chars(b),
        !(text::ascii_alphanumeric(c) || c == ' ' || c == '-' || c == '_') ==> ascii_safe_chars(
            a.push(c) + b,
        ) == ascii_safe_chars(a) + ascii_safe_chars(b) && ascii_sanitized(a.push(c) + b)
            == ascii_sanitized(a + b),
        safe_chars(Seq::<char>::empty()) == Seq::<char>::empty(),
        ascii_safe_chars(Seq::<char>::empty()) == Seq::<char>::empty(),
{
    lemma_safe_chars_add(a.push(c), b);
    lemma_safe_chars_add(a, b);
    assert(a.push(c).drop_last() =~= a);
}

proof fn lemma_safe_chars_add(a: Seq<char>, b: Seq<char>)
    ensures
        safe_chars(a + b) == safe_chars(a) + safe_chars(b),
        ascii_safe_chars(a + b) == ascii_safe_chars(a) + ascii_safe_chars(b),
    decreases b.len(),
{
    if b.len() == 0 {
        assert(a + b =~= a);
        assert(safe_chars(a) + safe_chars(b) =~= safe_chars(a));
        assert(ascii_safe_chars(a) + ascii_safe_chars(b) =~= ascii_safe_chars(a));
    } else {
        lemma_safe_chars_add(a, b.drop_last());
        assert((a + b).drop_last() =~= a + b.drop_last());
        assert((a + b).last() == b.last());
        assert(safe_chars(a + b) =~= safe_chars(a) + safe_chars(b));
        assert(ascii_safe_chars(a + b) =~= ascii_safe_chars(a) + ascii_safe_chars(b));
    }
}

/// The spaces around a name do not matter, and those within it become `_`: an
/// ASCII name of safe characters that neither begins nor ends with a space is
/// kept, character by character.
pub proof fn law_safe_name_is_kept(name: Seq<char>, i: int)
    requires
        name.len() > 0,
        forall|k: int|
            0 <= k < name.len() ==> text::ascii_alphanumeric(#[trigger] name[k]) || name[k] == ' '
                || name[k] == '-' || name[k] == '_',
        name[0] != ' ',
        name.last() != ' ',
        0 <= i < name.len(),
    ensures
        ascii_sanitized(name).len() == name.len(),
        ascii_sanitized(name)[i] == if name[i] == ' ' {
            '_'
        } else {
            name[i]
        },
        ascii_sanitized(seq![' '] + name) == ascii_sanitized(name),
        ascii_sanitized(name + seq![' ']) == ascii_sanitized(name),
{
    lemma_all_safe(name);
    lemma_all_safe(seq![' '] + name);
    lemma_all_safe(name + seq![' ']);
    assert(!text::whitespace(name[0]) && !text::whitespace(name.last()));
    let front = seq![' '] + name;
    assert(front.skip(1) =~= name);
    assert(text::whitespace(front[0]));
    assert(text::trimmed_start(front) == text::trimmed_start(name));
    let back = name + seq![' '];
    assert(back.drop_last() =~= name);
    assert(text::trimmed_start(back) == back);
    assert(text::trimmed_end(back) == text::trimmed_end(name));
}

proof fn lemma_all_safe(name: Seq<char>)
    requires
        forall|k: int|
            0 <= k < name.len() ==> text::ascii_alphanumeric(#[trigger] name[k]) || name[k] == ' '
                || name[k] == '-' || name[k] == '_',
    ensures
        ascii_safe_chars(name) == name,
    decreases name.len(),
{
    if name.len() > 0 {
        lemma_all_safe(name.drop_last());
        assert(name =~= name.drop_last().push(name.last()));
    }
}

/// A stamp can be read: its digits write the year, month, day, hour, minute and
/// second, with `_` between date and time.
pub proof fn law_stamp_can_be_read(
    year: i32,
    month: u32,
    day: u32,
    hour: u32,
    minute: u32,
    second: u32,
)
    requires
        time_exists(year, month, day, hour, minute, second),
        0 <= year < 10_000,
    ensures
        ({
            let s = stamp_text(year, month, day, hour, minute, second);
            &&& s.len() == 15
            &&& text::digits_value(s.subrange(0, 4)) == year
            &&& text::digits_value(s.subrange(4, 6)) == month
            &&& text::digits_value(s.subrange(6, 8)) == day
            &&& s[8] == '_'
            &&& text::digits_value(s.subrange(9, 11)) == hour
            &&& text::digits_value(s.subrange(11, 13)) == minute
            &&& text::digits_value(s.subrange(13, 15)) == second
        }),
{
    let s = stamp_text(year, month, day, hour, minute, second);
    let y = four_digits(year as nat);
    assert(s.subrange(0, 4) =~= y);
    assert(s.subrange(4, 6) =~= two_digits(month));
    assert(s.subrange(6, 8) =~= two_digits(day));
    assert(s.subrange(9, 11) =~= two_digits(hour));
    assert(s.subrange(11, 13) =~= two_digits(minute));
    assert(s.subrange(13, 15) =~= two_digits(second));
    lemma_two_digits(month);
    lemma_two_digits(day);
    lemma_two_digits(hour);
    lemma_two_digits(minute);
    lemma_two_digits(second);
    let n = year as nat;
    let e = Seq::<char>::empty();
    let (a, b, c, d) = (
        text::digit(n / 1000),
        text::digit(n / 100 % 10),
        text::digit(n / 10 % 10),
        text::digit(n % 10),
    );
    text::law_digits_count_in_tens(e, a);
    text::law_digits_count_in_tens(e.push(a), b);
    text::law_digits_count_in_tens(e.push(a).push(b), c);
    text::law_digits_count_in_tens(e.push(a).push(b).push(c), d);
    assert(y =~= e.push(a).push(b).push(c).push(d));
}

proof fn lemma_two_digits(n: u32)
    requires
        n < 100,
    ensures
        text::digits_value(two_digits(n)) == n,
{
    let e = Seq::<char>::empty();
    let (a, b) = (text::digit((n / 10) as nat), text::digit((n % 10) as nat));
    text::law_digits_count_in_tens(e, a);
    text::law_digits_count_in_tens(e.push(a), b);
    assert(two_digits(n) =~= e.push(a).push(b));
}

/// The segments as texts are those that the vector holds, one for one.
pub proof fn law_views_are_those_of_the_segments(segments: Seq<Segment>)
    ensures
        seg_views(segments).len() == segments.len(),
        forall|i: int|
            0 <= i < segments.len() ==> (#[trigger] seg_views(segments)[i]).modified
                == segments[i].modified && seg_views(segments)[i].path == segments[i].path@,
{
}

} // verus!
