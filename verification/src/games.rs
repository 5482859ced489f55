//! Which games are installed, which one is running, and what changed.

use vstd::prelude::*;

use crate::config::ExtraGame;
use crate::text;
use crate::text::{
    chars_of, find_part, has_prefix, has_suffix, is_whitespace, position_from, same_text,
    string_of_range,
};

verus! {

// ---------------------------------------------------------------------------
// Key-value text
// ---------------------------------------------------------------------------

/// The rest of `s` after the quoted text at its start, whose closing quote
/// stands at `close`; nothing where it is not closed.
pub open spec fn after_quote(s: Seq<char>, close: int) -> Seq<char> {
    if close < s.len() {
        s.skip(close + 1)
    } else {
        Seq::empty()
    }
}

/// The pairs of quoted texts in `s`: a key is a quoted text, and it has a
/// value where another quoted text follows it after nothing but whitespace.
/// A quote that is not closed runs to the end. All else is passed over.
pub open spec fn kv_pairs(s: Seq<char>) -> Seq<(Seq<char>, Seq<char>)>
    decreases s.len(),
{
    if s.len() == 0 {
        Seq::empty()
    } else if s[0] != '"' {
        kv_pairs(s.skip(1))
    } else {
        let close = text::next_position(s, '"', 1);
        let rest = text::trimmed_start(after_quote(s, close));
        proof {
            lemma_after_quote(s);
        }
        if rest.len() > 0 && rest[0] == '"' {
            let end = text::next_position(rest, '"', 1);
            proof {
                lemma_after_quote(rest);
            }
            seq![(s.subrange(1, close), rest.subrange(1, end))] + kv_pairs(after_quote(rest, end))
        } else {
            kv_pairs(rest)
        }
    }
}

/// What follows a quoted text is shorter than what begins with it.
pub proof fn lemma_after_quote(s: Seq<char>)
    requires
        s.len() > 0,
    ensures
        1 <= text::next_position(s, '"', 1) <= s.len(),
        after_quote(s, text::next_position(s, '"', 1)).len() < s.len(),
        text::trimmed_start(after_quote(s, text::next_position(s, '"', 1))).len() < s.len(),
{
    text::lemma_next_position_is(s, '"', 1);
    text::lemma_trimmed_start(after_quote(s, text::next_position(s, '"', 1)));
}

/// The pairs of texts that a vector holds.
pub open spec fn pair_views(pairs: Seq<(String, String)>) -> Seq<(Seq<char>, Seq<char>)> {
    pairs.map_values(|p: (String, String)| (p.0@, p.1@))
}

/// Reads the pairs of quoted keys and values in a text.
pub fn parse_kv_pairs(text: &str) -> (pairs: Vec<(String, String)>)
    ensures
        pair_views(pairs@) == kv_pairs(text@),
{
    let chars = chars_of(text);
    let ghost s = text@;
    let mut pairs: Vec<(String, String)> = Vec::new();
    let mut at: usize = 0;
    assert(s.skip(0) =~= s);
    assert(pair_views(pairs@) + kv_pairs(s) =~= kv_pairs(s));
    while at < chars.len()
        invariant
            chars@ == s,
            at <= s.len(),
            pair_views(pairs@) + kv_pairs(s.skip(at as int)) == kv_pairs(s),
        decreases s.len() - at,
    {
        let ghost here = s.skip(at as int);
        if chars[at] == '"' {
            let close: usize = position_from(&chars, '"', at + 1);
            let key = string_of_range(&chars, at + 1, close);
            proof {
                text::lemma_position_in_suffix(s, '"', at as int, at + 1);
                assert(key@ =~= here.subrange(1, close - at));
            }
            let mut next: usize = if close < chars.len() {
                close + 1
            } else {
                close
            };
            let ghost unskipped = after_quote(here, close - at);
            assert(s.skip(next as int) =~= unskipped);
            while next < chars.len() && is_whitespace(chars[next])
                invariant
                    chars@ == s,
                    at < next <= s.len(),
                    text::trimmed_start(unskipped) == text::trimmed_start(s.skip(next as int)),
                decreases s.len() - next,
            {
                assert(s.skip(next as int).skip(1) =~= s.skip(next + 1));
                next += 1;
            }
            let ghost rest = s.skip(next as int);
            assert(text::trimmed_start(unskipped) == rest);
            if next < chars.len() && chars[next] == '"' {
                let end: usize = position_from(&chars, '"', next + 1);
                let value = string_of_range(&chars, next + 1, end);
                proof {
                    text::lemma_position_in_suffix(s, '"', next as int, next + 1);
                    assert(value@ =~= rest.subrange(1, end - next));
                }
                let ghost before = pair_views(pairs@);
                pairs.push((key, value));
                assert(pair_views(pairs@) =~= before.push((key@, value@)));
                at = if end < chars.len() {
                    end + 1
                } else {
                    end
                };
                proof {
                    assert(s.skip(at as int) =~= after_quote(rest, end - next));
                    assert(pair_views(pairs@) + kv_pairs(s.skip(at as int)) =~= before + (seq![
                        (key@, value@),
                    ] + kv_pairs(s.skip(at as int))));
                }
            } else {
                at = next;
            }
        } else {
            assert(here.skip(1) =~= s.skip(at + 1));
            at += 1;
        }
    }
    assert(s.skip(at as int) =~= Seq::empty());
    assert(pair_views(pairs@) + kv_pairs(s.skip(at as int)) =~= pair_views(pairs@));
    pairs
}

// ---------------------------------------------------------------------------
// Steam libraries and installed games
// ---------------------------------------------------------------------------

/// The values that pairs give to `key`, in order.
pub open spec fn values_of(pairs: Seq<(Seq<char>, Seq<char>)>, key: Seq<char>) -> Seq<Seq<char>>
    decreases pairs.len(),
{
    if pairs.len() == 0 {
        Seq::empty()
    } else if pairs.last().0 == key {
        values_of(pairs.drop_last(), key).push(pairs.last().1)
    } else {
        values_of(pairs.drop_last(), key)
    }
}

/// The last value that pairs give to `key`, or the empty text.
pub open spec fn last_value(pairs: Seq<(Seq<char>, Seq<char>)>, key: Seq<char>) -> Seq<char> {
    if values_of(pairs, key).len() > 0 {
        values_of(pairs, key).last()
    } else {
        Seq::empty()
    }
}

/// The Steam libraries that an index file names, or the Steam directory alone
/// where it names none or cannot be read.
pub open spec fn libraries(index: Option<Seq<char>>, steam_dir: Seq<char>) -> Seq<Seq<char>> {
    match index {
        Some(s) => if values_of(kv_pairs(s), "path"@).len() > 0 {
            values_of(kv_pairs(s), "path"@)
        } else {
            seq![steam_dir]
        },
        None => seq![steam_dir],
    }
}

/// The values that pairs give to `key`, in order.
fn collect_values(pairs: &Vec<(String, String)>, key: &str) -> (values: Vec<String>)
    ensures
        text::texts(values@) == values_of(pair_views(pairs@), key@),
{
    let mut values: Vec<String> = Vec::new();
    let ghost views = pair_views(pairs@);
    let mut i: usize = 0;
    assert(text::texts(values@) =~= values_of(views.take(0), key@));
    while i < pairs.len()
        invariant
            views == pair_views(pairs@),
            i <= pairs@.len(),
            text::texts(values@) == values_of(views.take(i as int), key@),
        decreases pairs@.len() - i,
    {
        proof {
            assert(views.take(i + 1).drop_last() =~= views.take(i as int));
            assert(views.take(i + 1).last() == (pairs@[i as int].0@, pairs@[i as int].1@));
        }
        if same_text(pairs[i].0.as_str(), key) {
            let ghost before = text::texts(values@);
            values.push(pairs[i].1.clone());
            assert(text::texts(values@) =~= before.push(pairs@[i as int].1@));
        }
        i += 1;
    }
    assert(views.take(i as int) =~= views);
    values
}

/// The Steam libraries that the text of the library index names; the Steam
/// directory alone where it names none or could not be read.
pub fn parse_library_folders(index: Option<&str>, steam_dir: &str) -> (folders: Vec<String>)
    ensures
        text::texts(folders@) == libraries(
            match index {
                Some(s) => Some(s@),
                None => None,
            },
            steam_dir@,
        ),
{
    if let Some(s) = index {
        let pairs = parse_kv_pairs(s);
        let folders = collect_values(&pairs, "path");
        if folders.len() > 0 {
            return folders;
        }
    }
    let mut folders: Vec<String> = Vec::new();
    folders.push(steam_dir.to_owned());
    assert(text::texts(folders@) =~= seq![steam_dir@]);
    folders
}

/// Whether a file of a library describes an installed game.
pub fn is_app_manifest(file_name: &str) -> (r: bool)
    ensures
        r == ("appmanifest_"@.is_prefix_of(file_name@) && ".acf"@.is_suffix_of(file_name@)),
{
    has_prefix(file_name, "appmanifest_") && has_suffix(file_name, ".acf")
}

/// The installation directory and name of the game that a manifest describes,
/// unless it is to be skipped or either is missing.
pub open spec fn manifest_game(manifest: Seq<char>, skip: Seq<Seq<char>>) -> Option<
    (Seq<char>, Seq<char>),
> {
    let pairs = kv_pairs(manifest);
    let name = last_value(pairs, "name"@);
    let dir = last_value(pairs, "installdir"@);
    if skip.contains(last_value(pairs, "appid"@)) || name.len() == 0 || dir.len() == 0 {
        None
    } else {
        Some((dir, name))
    }
}

/// The last value that pairs give to `key`, or the empty text.
fn find_last_value(pairs: &Vec<(String, String)>, key: &str) -> (value: String)
    ensures
        value@ == last_value(pair_views(pairs@), key@),
{
    let values = collect_values(pairs, key);
    if values.len() > 0 {
        let value = values[values.len() - 1].clone();
        assert(text::texts(values@).last() == value@);
        value
    } else {
        String::new()
    }
}

/// Whether `list` holds the text `item`.
pub fn lists_text(list: &Vec<String>, item: &str) -> (r: bool)
    ensures
        r == text::texts(list@).contains(item@),
{
    let mut i: usize = 0;
    while i < list.len()
        invariant
            i <= list@.len(),
            forall|k: int| 0 <= k < i ==> #[trigger] text::texts(list@)[k] != item@,
        decreases list@.len() - i,
    {
        assert(text::texts(list@)[i as int] == list@[i as int]@);
        if same_text(list[i].as_str(), item) {
            return true;
        }
        i += 1;
    }
    false
}

/// The installation directory and name of the game that a manifest describes,
/// unless its id is to be skipped or either is missing.
pub fn read_manifest(manifest: &str, skip_appids: &Vec<String>) -> (game: Option<(String, String)>)
    ensures
        match game {
            Some((dir, name)) => manifest_game(manifest@, text::texts(skip_appids@)) == Some(
                (dir@, name@),
            ),
            None => manifest_game(manifest@, text::texts(skip_appids@)) is None,
        },
{
    let pairs = parse_kv_pairs(manifest);
    let appid = find_last_value(&pairs, "appid");
    let name = find_last_value(&pairs, "name");
    let dir = find_last_value(&pairs, "installdir");
    if lists_text(skip_appids, appid.as_str()) || name.as_str().is_empty()
        || dir.as_str().is_empty() {
        None
    } else {
        Some((dir, name))
    }
}

/// A game and the lower-case text that it is recognised by: its installation
/// directory, or the name of its executable.
pub struct KnownGame {
    pub key: String,
    pub name: String,
}

/// Known games as pairs of key and name.
pub open spec fn known(games: Seq<KnownGame>) -> Seq<(Seq<char>, Seq<char>)> {
    games.map_values(|g: KnownGame| (g.key@, g.name@))
}

/// The installation directories and names of the games that manifests
/// describe, in order.
pub open spec fn described_games(manifests: Seq<Seq<char>>, skip: Seq<Seq<char>>) -> Seq<
    (Seq<char>, Seq<char>),
>
    decreases manifests.len(),
{
    if manifests.len() == 0 {
        Seq::empty()
    } else {
        let before = described_games(manifests.drop_last(), skip);
        match manifest_game(manifests.last(), skip) {
            Some(game) => before.push(game),
            None => before,
        }
    }
}

/// The games that manifests describe, each with its directory in lower case.
pub open spec fn installed_games(manifests: Seq<Seq<char>>, skip: Seq<Seq<char>>) -> Seq<
    (Seq<char>, Seq<char>),
> {
    described_games(manifests, skip).map_values(
        |game: (Seq<char>, Seq<char>)| (text::lowercase(game.0), game.1),
    )
}

/// The games that the texts of manifests describe, in order, each known by
/// its installation directory in lower case.
pub fn load_steam_games(manifests: &Vec<String>, skip_appids: &Vec<String>) -> (games: Vec<
    KnownGame,
>)
    ensures
        known(games@) == installed_games(text::texts(manifests@), text::texts(skip_appids@)),
        ({
            let described = described_games(text::texts(manifests@), text::texts(skip_appids@));
            &&& games@.len() == described.len()
            &&& forall|i: int|
                0 <= i < described.len() && vstd::utf8::is_ascii_chars(described[i].0) ==> (
                #[trigger] games@[i]).key@ == text::ascii_lower_text(described[i].0)
        }),
{
    let mut games: Vec<KnownGame> = Vec::new();
    let ghost all = text::texts(manifests@);
    let ghost skip = text::texts(skip_appids@);
    let mut i: usize = 0;
    assert(known(games@) =~= installed_games(all.take(0), skip));
    while i < manifests.len()
        invariant
            all == text::texts(manifests@),
            skip == text::texts(skip_appids@),
            i <= manifests@.len(),
            known(games@) == installed_games(all.take(i as int), skip),
            games@.len() == described_games(all.take(i as int), skip).len(),
            forall|k: int|
                0 <= k < games@.len() && vstd::utf8::is_ascii_chars(
                    described_games(all.take(i as int), skip)[k].0,
                ) ==> (#[trigger] games@[k]).key@ == text::ascii_lower_text(
                    described_games(all.take(i as int), skip)[k].0,
                ),
        decreases manifests@.len() - i,
    {
        proof {
            assert(all.take(i + 1).drop_last() =~= all.take(i as int));
            assert(all.take(i + 1).last() == manifests@[i as int]@);
        }
        if let Some((dir, name)) = read_manifest(manifests[i].as_str(), skip_appids) {
            let ghost before = known(games@);
            let ghost described = described_games(all.take(i as int), skip);
            let game = KnownGame { key: dir.as_str().to_lowercase(), name };
            games.push(game);
            proof {
                assert(known(games@) =~= before.push((game.key@, game.name@)));
                assert(described_games(all.take(i + 1), skip) == described.push((dir@, name@)));
                assert(known(games@) =~= installed_games(all.take(i + 1), skip));
            }
        }
        i += 1;
    }
    assert(all.take(i as int) =~= all);
    games
}

/// The games outside Steam to watch for, each known by the name of its
/// executable in lower case.
pub fn watch_list(extra: &Vec<ExtraGame>) -> (games: Vec<KnownGame>)
    ensures
        games@.len() == extra@.len(),
        forall|i: int|
            0 <= i < extra@.len() ==> (#[trigger] games@[i]).key@ == text::lowercase(extra@[i].exe@)
                && games@[i].name@ == extra@[i].name@,
        forall|i: int|
            0 <= i < extra@.len() && vstd::utf8::is_ascii_chars(extra@[i].exe@) ==> (
            #[trigger] games@[i]).key@ == text::ascii_lower_text(extra@[i].exe@),
{
    let mut games: Vec<KnownGame> = Vec::new();
    let mut i: usize = 0;
    while i < extra.len()
        invariant
            i <= extra@.len(),
            games@.len() == i,
            forall|k: int|
                0 <= k < i ==> (#[trigger] games@[k]).key@ == text::lowercase(extra@[k].exe@)
                    && games@[k].name@ == extra@[k].name@,
            forall|k: int|
                0 <= k < i && vstd::utf8::is_ascii_chars(extra@[k].exe@) ==> (
                #[trigger] games@[k]).key@ == text::ascii_lower_text(extra@[k].exe@),
        decreases extra@.len() - i,
    {
        games.push(
            KnownGame { key: extra[i].exe.as_str().to_lowercase(), name: extra[i].name.clone() },
        );
        i += 1;
    }
    games
}

// ---------------------------------------------------------------------------
// Detection
// ---------------------------------------------------------------------------

/// The name of the first game with this key.
pub open spec fn name_for(games: Seq<(Seq<char>, Seq<char>)>, key: Seq<char>) -> Option<Seq<char>>
    decreases games.len(),
{
    if games.len() == 0 {
        None
    } else if games[0].0 == key {
        Some(games[0].1)
    } else {
        name_for(games.skip(1), key)
    }
}

/// The directory below `steamapps\common\` that an executable lies in, if it
/// lies there.
pub open spec fn install_dir(exe: Seq<char>) -> Option<Seq<char>> {
    match text::part_position(exe, "steamapps\\common\\"@, 0) {
        Some(at) => {
            let after = exe.skip(at + "steamapps\\common\\"@.len());
            Some(after.take(text::next_position(after, '\\', 0)))
        },
        None => None,
    }
}

/// The game that an executable belongs to: by its installation directory
/// among the Steam games, else by its file name among the others. Both texts
/// are in lower case.
pub open spec fn game_of(
    exe: Seq<char>,
    file_name: Option<Seq<char>>,
    steam: Seq<(Seq<char>, Seq<char>)>,
    extra: Seq<(Seq<char>, Seq<char>)>,
) -> Option<Seq<char>> {
    let by_dir = match install_dir(exe) {
        Some(dir) => name_for(steam, dir),
        None => None,
    };
    match (by_dir, file_name) {
        (Some(name), _) => Some(name),
        (None, Some(file)) => name_for(extra, file),
        (None, None) => None,
    }
}

/// The name of the first game with this key.
fn find_name(games: &Vec<KnownGame>, key: &str) -> (name: Option<String>)
    ensures
        match name {
            Some(n) => name_for(known(games@), key@) == Some(n@),
            None => name_for(known(games@), key@) is None,
        },
{
    let ghost pairs = known(games@);
    let mut i: usize = 0;
    assert(pairs.skip(0) =~= pairs);
    while i < games.len()
        invariant
            pairs == known(games@),
            i <= games@.len(),
            name_for(pairs, key@) == name_for(pairs.skip(i as int), key@),
        decreases games@.len() - i,
    {
        proof {
            assert(pairs.skip(i as int)[0] == (games@[i as int].key@, games@[i as int].name@));
            assert(pairs.skip(i as int).skip(1) =~= pairs.skip(i + 1));
        }
        if same_text(games[i].key.as_str(), key) {
            return Some(games[i].name.clone());
        }
        i += 1;
    }
    None
}

/// The directory below `steamapps\common\` that an executable lies in.
fn find_install_dir(exe: &str) -> (dir: Option<String>)
    ensures
        match dir {
            Some(d) => install_dir(exe@) == Some(d@),
            None => install_dir(exe@) is None,
        },
{
    let chars = chars_of(exe);
    let marker = chars_of("steamapps\\common\\");
    match find_part(&chars, &marker) {
        Some(at) => {
            assert(chars@.len() == chars.len());
            let from: usize = at + marker.len();
            let to: usize = position_from(&chars, '\\', from);
            let dir = string_of_range(&chars, from, to);
            proof {
                text::lemma_position_in_suffix(exe@, '\\', from as int, from as int);
                assert(dir@ =~= exe@.skip(from as int).take(to - from));
            }
            Some(dir)
        },
        None => None,
    }
}

/// The game that an executable belongs to: by its installation directory
/// among the Steam games, else by its file name among the others. Both texts
/// are in lower case.
pub fn identify_game(
    exe: &str,
    file_name: Option<&str>,
    steam: &Vec<KnownGame>,
    extra: &Vec<KnownGame>,
) -> (name: Option<String>)
    ensures
        game_of(
            exe@,
            match file_name {
                Some(f) => Some(f@),
                None => None,
            },
            known(steam@),
            known(extra@),
        ) == match name {
            Some(n) => Some(n@),
            None => None,
        },
{
    if let Some(dir) = find_install_dir(exe) {
        if let Some(name) = find_name(steam, dir.as_str()) {
            return Some(name);
        }
    }
    match file_name {
        Some(file) => find_name(extra, file),
        None => None,
    }
}

/// A running process: the path of its executable and that path's last part,
/// as far as they are known.
pub struct ProcessInfo {
    pub pid: u32,
    pub exe: Option<String>,
    pub file_name: Option<String>,
}

/// The game that a process belongs to.
pub open spec fn game_of_process(
    process: ProcessInfo,
    steam: Seq<(Seq<char>, Seq<char>)>,
    extra: Seq<(Seq<char>, Seq<char>)>,
) -> Option<Seq<char>> {
    match process.exe {
        Some(exe) => game_of(
            text::lowercase(exe@),
            match process.file_name {
                Some(f) => Some(text::lowercase(f@)),
                None => None,
            },
            steam,
            extra,
        ),
        None => None,
    }
}

/// The first process that belongs to a game: the name of the game and the id
/// of the process.
pub open spec fn running_game(
    processes: Seq<ProcessInfo>,
    steam: Seq<(Seq<char>, Seq<char>)>,
    extra: Seq<(Seq<char>, Seq<char>)>,
) -> Option<(Seq<char>, u32)>
    decreases processes.len(),
{
    if processes.len() == 0 {
        None
    } else {
        match game_of_process(processes[0], steam, extra) {
            Some(name) => Some((name, processes[0].pid)),
            None => running_game(processes.skip(1), steam, extra),
        }
    }
}

/// Whether the paths and file names of all processes are ASCII texts, as far as
/// they are known.
pub open spec fn ascii_processes(processes: Seq<ProcessInfo>) -> bool {
    forall|i: int|
        0 <= i < processes.len() ==> {
            &&& (#[trigger] processes[i]).exe matches Some(exe) ==> vstd::utf8::is_ascii_chars(exe@)
            &&& processes[i].file_name matches Some(f) ==> vstd::utf8::is_ascii_chars(f@)
        }
}

/// The game that a process with an ASCII path and file name belongs to.
pub open spec fn game_of_ascii_process(
    process: ProcessInfo,
    steam: Seq<(Seq<char>, Seq<char>)>,
    extra: Seq<(Seq<char>, Seq<char>)>,
) -> Option<Seq<char>> {
    match process.exe {
        Some(exe) => game_of(
            text::ascii_lower_text(exe@),
            match process.file_name {
                Some(f) => Some(text::ascii_lower_text(f@)),
                None => None,
            },
            steam,
            extra,
        ),
        None => None,
    }
}

/// The first process that belongs to a game, among processes with ASCII paths
/// and file names.
pub open spec fn running_ascii_game(
    processes: Seq<ProcessInfo>,
    steam: Seq<(Seq<char>, Seq<char>)>,
    extra: Seq<(Seq<char>, Seq<char>)>,
) -> Option<(Seq<char>, u32)>
    decreases processes.len(),
{
    if processes.len() == 0 {
        None
    } else {
        match game_of_ascii_process(processes[0], steam, extra) {
            Some(name) => Some((name, processes[0].pid)),
            None => running_ascii_game(processes.skip(1), steam, extra),
        }
    }
}

/// The first process that belongs to a game: the name of the game and the id
/// of the process.
pub fn detect_game(
    processes: &Vec<ProcessInfo>,
    steam: &Vec<KnownGame>,
    extra: &Vec<KnownGame>,
) -> (found: Option<(String, u32)>)
    ensures
        match found {
            Some((name, pid)) => running_game(processes@, known(steam@), known(extra@)) == Some(
                (name@, pid),
            ),
            None => running_game(processes@, known(steam@), known(extra@)) is None,
        },
        ascii_processes(processes@) ==> tracked_game(found) == running_ascii_game(
            processes@,
            known(steam@),
            known(extra@),
        ),
{
    let mut i: usize = 0;
    assert(processes@.skip(0) =~= processes@);
    while i < processes.len()
        invariant
            i <= processes@.len(),
            running_game(processes@, known(steam@), known(extra@)) == running_game(
                processes@.skip(i as int),
                known(steam@),
                known(extra@),
            ),
            ascii_processes(processes@) ==> running_ascii_game(
                processes@,
                known(steam@),
                known(extra@),
            ) == running_ascii_game(processes@.skip(i as int), known(steam@), known(extra@)),
        decreases processes@.len() - i,
    {
        proof {
            assert(processes@.skip(i as int)[0] == processes@[i as int]);
            assert(processes@.skip(i as int).skip(1) =~= processes@.skip(i + 1));
        }
        if let Some(exe) = &processes[i].exe {
            let exe_lower = exe.as_str().to_lowercase();
            let name = match &processes[i].file_name {
                Some(f) => {
                    let file_lower = f.as_str().to_lowercase();
                    identify_game(exe_lower.as_str(), Some(file_lower.as_str()), steam, extra)
                },
                None => identify_game(exe_lower.as_str(), None, steam, extra),
            };
            if let Some(name) = name {
                return Some((name, processes[i].pid));
            }
        }
        i += 1;
    }
    None
}

// ---------------------------------------------------------------------------
// Events
// ---------------------------------------------------------------------------

/// A change of the running game.
pub enum GameEvent {
    Started { name: String, pid: u32 },
    Stopped,
    /// A different game replaced the one that was running. The old capture is
    /// stopped, then a new one started.
    Switched { name: String, pid: u32 },
}

/// A change of the running game, with its name as a text.
pub enum Event {
    Started(Seq<char>, u32),
    Stopped,
    Switched(Seq<char>, u32),
}

impl View for GameEvent {
    type V = Event;

    open spec fn view(&self) -> Event {
        match *self {
            GameEvent::Started { name, pid } => Event::Started(name@, pid),
            GameEvent::Stopped => Event::Stopped,
            GameEvent::Switched { name, pid } => Event::Switched(name@, pid),
        }
    }
}

/// The event between what ran before and what runs now: a process by its game
/// and id.
pub open spec fn event_between(
    current: Option<(Seq<char>, u32)>,
    detected: Option<(Seq<char>, u32)>,
) -> Option<Event> {
    match (current, detected) {
        (None, Some((name, pid))) => Some(Event::Started(name, pid)),
        (Some(_), None) => Some(Event::Stopped),
        (Some(before), Some((name, pid))) => if before == (name, pid) {
            None
        } else {
            Some(Event::Switched(name, pid))
        },
        (None, None) => None,
    }
}

/// A borrowed game and process as text and id.
pub open spec fn running(game: Option<(&str, u32)>) -> Option<(Seq<char>, u32)> {
    match game {
        Some((name, pid)) => Some((name@, pid)),
        None => None,
    }
}

/// The event between what ran before and what runs now.
pub fn next_game_event(current: Option<(&str, u32)>, detected: Option<(&str, u32)>) -> (event:
    Option<GameEvent>)
    ensures
        match event {
            Some(e) => event_between(running(current), running(detected)) == Some(e@),
            None => event_between(running(current), running(detected)) is None,
        },
{
    match (current, detected) {
        (None, Some((name, pid))) => Some(GameEvent::Started { name: name.to_owned(), pid }),
        (Some((cur_name, cur_pid)), Some((name, pid))) => {
            if !same_text(cur_name, name) || cur_pid != pid {
                Some(GameEvent::Switched { name: name.to_owned(), pid })
            } else {
                None
            }
        },
        (Some(_), None) => Some(GameEvent::Stopped),
        (None, None) => None,
    }
}

/// The game that is running, as far as has been announced.
pub struct GameTracker {
    pub current: Option<(String, u32)>,
}

/// An owned game and process as text and id.
pub open spec fn tracked_game(game: Option<(String, u32)>) -> Option<(Seq<char>, u32)> {
    match game {
        Some((name, pid)) => Some((name@, pid)),
        None => None,
    }
}

impl GameTracker {
    /// No game is running.
    pub fn new() -> (tracker: GameTracker)
        ensures
            tracker.current is None,
    {
        GameTracker { current: None }
    }

    /// Takes note of what is running now, and announces what changed.
    pub fn observe(&mut self, detected: Option<(String, u32)>) -> (event: Option<GameEvent>)
        ensures
            tracked_game(final(self).current) == tracked_game(detected),
            match event {
                Some(e) => event_between(tracked_game(old(self).current), tracked_game(detected))
                    == Some(e@),
                None => event_between(tracked_game(old(self).current), tracked_game(detected))
                    is None,
            },
    {
        let event = next_game_event(
            match &self.current {
                Some((name, pid)) => Some((name.as_str(), *pid)),
                None => None,
            },
            match &detected {
                Some((name, pid)) => Some((name.as_str(), *pid)),
                None => None,
            },
        );
        if event.is_some() {
            self.current = detected;
        }
        event
    }
}

// ---------------------------------------------------------------------------
// Laws
// ---------------------------------------------------------------------------

/// What runs after an event, to someone who knew what ran before it.
pub open spec fn after_event(
    current: Option<(Seq<char>, u32)>,
    event: Option<Event>,
) -> Option<(Seq<char>, u32)> {
    match event {
        None => current,
        Some(Event::Stopped) => None,
        Some(Event::Started(name, pid)) => Some((name, pid)),
        Some(Event::Switched(name, pid)) => Some((name, pid)),
    }
}

/// Someone who hears the events alone knows what is running, nothing is
/// announced where nothing changed, a start is announced only where nothing
/// ran, and a switch or a stop only where something did.
pub proof fn law_events_tell_what_runs(
    current: Option<(Seq<char>, u32)>,
    detected: Option<(Seq<char>, u32)>,
)
    ensures
        after_event(current, event_between(current, detected)) == detected,
        event_between(current, detected) is None <==> current == detected,
        event_between(current, detected) matches Some(Event::Started(_, _)) ==> current is None,
        event_between(current, detected) matches Some(Event::Switched(_, _)) ==> current is Some,
        event_between(current, detected) matches Some(Event::Stopped) ==> current is Some,
{
}

/// A text between quotes.
pub open spec fn quoted(s: Seq<char>) -> Seq<char> {
    seq!['"'] + s + seq!['"']
}

/// A key and a value that are written between quotes, with whitespace between
/// them, are read back as they are, and reading goes on after them.
pub proof fn law_written_pair_is_read(
    key: Seq<char>,
    gap: Seq<char>,
    value: Seq<char>,
    rest: Seq<char>,
)
    requires
        !key.contains('"'),
        !value.contains('"'),
        forall|i: int| 0 <= i < gap.len() ==> text::whitespace(#[trigger] gap[i]),
    ensures
        kv_pairs(quoted(key) + gap + quoted(value) + rest) == seq![(key, value)] + kv_pairs(rest),
{
    let s = quoted(key) + gap + quoted(value) + rest;
    let close = key.len() + 1;
    assert forall|k: int| 1 <= k < close implies s[k] != '"' by {
        assert(s[k] == key[k - 1]);
    }
    assert(s[close as int] == '"');
    text::lemma_next_position(s, '"', 1, close as int);
    assert(s.subrange(1, close as int) =~= key);
    let tail = quoted(value) + rest;
    assert(after_quote(s, close as int) =~= gap + tail);
    lemma_gap_is_trimmed(gap, tail);
    assert(tail[0] == '"');
    let end = value.len() + 1;
    assert forall|k: int| 1 <= k < end implies tail[k] != '"' by {
        assert(tail[k] == value[k - 1]);
    }
    assert(tail[end as int] == '"');
    text::lemma_next_position(tail, '"', 1, end as int);
    assert(tail.subrange(1, end as int) =~= value);
    assert(after_quote(tail, end as int) =~= rest);
}

/// Whitespace before a text that does not begin with any is trimmed off.
proof fn lemma_gap_is_trimmed(gap: Seq<char>, tail: Seq<char>)
    requires
        forall|i: int| 0 <= i < gap.len() ==> text::whitespace(#[trigger] gap[i]),
        tail.len() > 0,
        !text::whitespace(tail[0]),
    ensures
        text::trimmed_start(gap + tail) == tail,
    decreases gap.len(),
{
    if gap.len() == 0 {
        assert(gap + tail =~= tail);
    } else {
        assert((gap + tail)[0] == gap[0]);
        assert((gap + tail).skip(1) =~= gap.skip(1) + tail);
        lemma_gap_is_trimmed(gap.skip(1), tail);
    }
}

/// What stands outside quotes, such as braces and line breaks, is passed over.
pub proof fn law_unquoted_is_passed_over(plain: Seq<char>, rest: Seq<char>)
    requires
        !plain.contains('"'),
    ensures
        kv_pairs(plain + rest) == kv_pairs(rest),
    decreases plain.len(),
{
    if plain.len() == 0 {
        assert(plain + rest =~= rest);
    } else {
        assert(plain.contains(plain[0]));
        assert((plain + rest)[0] == plain[0]);
        assert((plain + rest).skip(1) =~= plain.skip(1) + rest);
        assert forall|c: char| plain.skip(1).contains(c) implies plain.contains(c) by {
            let i = choose|i: int| 0 <= i < plain.skip(1).len() && plain.skip(1)[i] == c;
            assert(plain[i + 1] == c);
        }
        law_unquoted_is_passed_over(plain.skip(1), rest);
    }
}

/// A text between quotes that is followed by neither whitespace nor a quote has
/// no value, and reading goes on after it.
pub proof fn law_key_without_value_is_passed_over(
    key: Seq<char>,
    gap: Seq<char>,
    rest: Seq<char>,
)
    requires
        !key.contains('"'),
        forall|i: int| 0 <= i < gap.len() ==> text::whitespace(#[trigger] gap[i]),
        rest.len() > 0,
        !text::whitespace(rest[0]),
        rest[0] != '"',
    ensures
        kv_pairs(quoted(key) + gap + rest) == kv_pairs(rest),
{
    let s = quoted(key) + gap + rest;
    let close = key.len() + 1;
    assert forall|k: int| 1 <= k < close implies s[k] != '"' by {
        assert(s[k] == key[k - 1]);
    }
    assert(s[close as int] == '"');
    text::lemma_next_position(s, '"', 1, close as int);
    assert(after_quote(s, close as int) =~= gap + rest);
    lemma_gap_is_trimmed(gap, rest);
}

/// A value that is not closed runs to the end, and a key that is not closed, or
/// that nothing but whitespace follows, gives no pair.
pub proof fn law_unclosed_text_runs_to_the_end(key: Seq<char>, gap: Seq<char>, value: Seq<char>)
    requires
        !key.contains('"'),
        !value.contains('"'),
        forall|i: int| 0 <= i < gap.len() ==> text::whitespace(#[trigger] gap[i]),
    ensures
        kv_pairs(quoted(key) + gap + (seq!['"'] + value)) == seq![(key, value)],
        kv_pairs(quoted(key) + gap) == Seq::<(Seq<char>, Seq<char>)>::empty(),
        kv_pairs(seq!['"'] + key) == Seq::<(Seq<char>, Seq<char>)>::empty(),
{
    let tail = seq!['"'] + value;
    let s = quoted(key) + gap + tail;
    let close = key.len() + 1;
    assert forall|k: int| 1 <= k < close implies s[k] != '"' by {
        assert(s[k] == key[k - 1]);
    }
    text::lemma_next_position(s, '"', 1, close as int);
    assert(s.subrange(1, close as int) =~= key);
    assert(after_quote(s, close as int) =~= gap + tail);
    lemma_gap_is_trimmed(gap, tail);
    assert forall|k: int| 1 <= k < tail.len() implies tail[k] != '"' by {
        assert(tail[k] == value[k - 1]);
    }
    text::lemma_next_position(tail, '"', 1, tail.len() as int);
    assert(tail.subrange(1, tail.len() as int) =~= value);
    assert(kv_pairs(after_quote(tail, tail.len() as int)) =~= Seq::empty());

    let t = quoted(key) + gap;
    assert forall|k: int| 1 <= k < close implies t[k] != '"' by {
        assert(t[k] == key[k - 1]);
    }
    text::lemma_next_position(t, '"', 1, close as int);
    assert(after_quote(t, close as int) =~= gap);
    lemma_all_gap_is_trimmed(gap);

    let u = seq!['"'] + key;
    assert forall|k: int| 1 <= k < u.len() implies u[k] != '"' by {
        assert(u[k] == key[k - 1]);
    }
    text::lemma_next_position(u, '"', 1, u.len() as int);
    assert(after_quote(u, u.len() as int) =~= Seq::empty());
}

proof fn lemma_all_gap_is_trimmed(gap: Seq<char>)
    requires
        forall|i: int| 0 <= i < gap.len() ==> text::whitespace(#[trigger] gap[i]),
    ensures
        text::trimmed_start(gap) == Seq::<char>::empty(),
    decreases gap.len(),
{
    if gap.len() > 0 {
        lemma_all_gap_is_trimmed(gap.skip(1));
    } else {
        assert(gap =~= Seq::empty());
    }
}

/// The values of a key are found pair by pair: each pair with that key gives its
/// value, in order, and no other pair gives any.
pub proof fn law_values_are_found_pair_by_pair(
    pairs: Seq<(Seq<char>, Seq<char>)>,
    more: Seq<(Seq<char>, Seq<char>)>,
    key: Seq<char>,
)
    ensures
        values_of(pairs + more, key) == values_of(pairs, key) + values_of(more, key),
        pairs.len() == 1 && pairs[0].0 == key ==> values_of(pairs, key) == seq![pairs[0].1],
        pairs.len() == 1 && pairs[0].0 != key ==> values_of(pairs, key)
            == Seq::<Seq<char>>::empty(),
        pairs.len() == 0 ==> values_of(pairs, key) == Seq::<Seq<char>>::empty(),
    decreases more.len(),
{
    if more.len() == 0 {
        assert(pairs + more =~= pairs);
        assert(values_of(pairs, key) + values_of(more, key) =~= values_of(pairs, key));
    } else {
        let front = more.drop_last();
        law_values_are_found_pair_by_pair(pairs, front, key);
        assert((pairs + more).drop_last() =~= pairs + front);
        assert((pairs + more).last() == more.last());
        assert(values_of(pairs + more, key) =~= values_of(pairs, key) + values_of(more, key));
    }
    if pairs.len() == 1 {
        assert(pairs.drop_last() =~= Seq::empty());
        assert(values_of(pairs.drop_last(), key) =~= Seq::empty());
        if pairs[0].0 == key {
            assert(values_of(pairs, key) =~= seq![pairs[0].1]);
        }
    }
}

/// Of several values of a key the last counts, and a key without any has the
/// empty text.
pub proof fn law_last_value_counts(
    before: Seq<(Seq<char>, Seq<char>)>,
    key: Seq<char>,
    value: Seq<char>,
    after: Seq<(Seq<char>, Seq<char>)>,
)
    requires
        forall|i: int| 0 <= i < after.len() ==> (#[trigger] after[i]).0 != key,
    ensures
        last_value(before.push((key, value)) + after, key) == value,
        last_value(after, key) == Seq::<char>::empty(),
{
    lemma_no_values(after, key);
    law_values_are_found_pair_by_pair(before.push((key, value)), after, key);
    assert(before.push((key, value)).drop_last() =~= before);
    assert(values_of(before.push((key, value)), key) + values_of(after, key) =~= values_of(
        before,
        key,
    ).push(value));
}

proof fn lemma_no_values(pairs: Seq<(Seq<char>, Seq<char>)>, key: Seq<char>)
    requires
        forall|i: int| 0 <= i < pairs.len() ==> (#[trigger] pairs[i]).0 != key,
    ensures
        values_of(pairs, key) == Seq::<Seq<char>>::empty(),
    decreases pairs.len(),
{
    if pairs.len() > 0 {
        let front = pairs.drop_last();
        assert forall|i: int| 0 <= i < front.len() implies (#[trigger] front[i]).0 != key by {
            assert(front[i] == pairs[i]);
        }
        lemma_no_values(front, key);
        assert(pairs[pairs.len() - 1] == pairs.last());
    }
}

/// The libraries are the values of `path` in the index, all of them and in
/// order; without any, or without an index, the Steam directory is the only
/// one.
pub proof fn law_libraries_are_the_paths(index: Seq<char>, steam_dir: Seq<char>)
    ensures
        libraries(Some(index), steam_dir).len() > 0,
        values_of(kv_pairs(index), "path"@).len() > 0 ==> libraries(Some(index), steam_dir)
            == values_of(kv_pairs(index), "path"@),
        values_of(kv_pairs(index), "path"@).len() == 0 ==> libraries(Some(index), steam_dir)
            == seq![steam_dir],
        libraries(None, steam_dir) == seq![steam_dir],
{
}

/// A manifest gives its game where it names one and where it is installed,
/// unless its id is among those to skip.
pub proof fn law_manifest_names_its_game(manifest: Seq<char>, skip: Seq<Seq<char>>)
    ensures
        ({
            let pairs = kv_pairs(manifest);
            let skipped = skip.contains(last_value(pairs, "appid"@));
            let name = last_value(pairs, "name"@);
            let dir = last_value(pairs, "installdir"@);
            &&& !skipped && name.len() > 0 && dir.len() > 0 ==> manifest_game(manifest, skip)
                == Some((dir, name))
            &&& skipped || name.len() == 0 || dir.len() == 0 ==> manifest_game(manifest, skip)
                is None
        }),
{
}

/// Games are found manifest by manifest, in order, and are known by their
/// directories in lower case.
pub proof fn law_games_are_found_manifest_by_manifest(
    manifests: Seq<Seq<char>>,
    more: Seq<Seq<char>>,
    skip: Seq<Seq<char>>,
)
    ensures
        described_games(manifests + more, skip) == described_games(manifests, skip)
            + described_games(more, skip),
        manifests.len() == 1 ==> described_games(manifests, skip) == match manifest_game(
            manifests[0],
            skip,
        ) {
            Some(game) => seq![game],
            None => Seq::empty(),
        },
        manifests.len() == 0 ==> described_games(manifests, skip).len() == 0,
        installed_games(manifests, skip).len() == described_games(manifests, skip).len(),
        forall|i: int|
            0 <= i < described_games(manifests, skip).len() ==> #[trigger] installed_games(
                manifests,
                skip,
            )[i] == (
                text::lowercase(described_games(manifests, skip)[i].0),
                described_games(manifests, skip)[i].1,
            ),
    decreases more.len(),
{
    if more.len() == 0 {
        assert(manifests + more =~= manifests);
        assert(described_games(manifests, skip) + described_games(more, skip) =~= described_games(
            manifests,
            skip,
        ));
    } else {
        let front = more.drop_last();
        law_games_are_found_manifest_by_manifest(manifests, front, skip);
        assert((manifests + more).drop_last() =~= manifests + front);
        assert((manifests + more).last() == more.last());
        assert(described_games(manifests + more, skip) =~= described_games(manifests, skip)
            + described_games(more, skip));
    }
    if manifests.len() == 1 {
        assert(manifests.drop_last() =~= Seq::empty());
        assert(described_games(manifests.drop_last(), skip) =~= Seq::empty());
        if let Some(game) = manifest_game(manifests[0], skip) {
            assert(described_games(manifests, skip) =~= seq![game]);
        }
    }
}

/// The game with a key is the first that has it, and there is none only where
/// no game has it.
pub proof fn law_first_game_with_the_key(games: Seq<(Seq<char>, Seq<char>)>, key: Seq<char>, i: int)
    ensures
        0 <= i < games.len() && games[i].0 == key && (forall|k: int|
            0 <= k < i ==> (#[trigger] games[k]).0 != key) ==> name_for(games, key) == Some(
            games[i].1,
        ),
        (forall|k: int| 0 <= k < games.len() ==> (#[trigger] games[k]).0 != key) <==> name_for(
            games,
            key,
        ) is None,
    decreases games.len(),
{
    if games.len() > 0 {
        let rest = games.skip(1);
        law_first_game_with_the_key(rest, key, i - 1);
        assert(forall|k: int| 0 <= k < rest.len() ==> #[trigger] rest[k] == games[k + 1]);
        if games[0].0 != key {
            if forall|k: int| 0 <= k < rest.len() ==> (#[trigger] rest[k]).0 != key {
                assert forall|k: int| 0 <= k < games.len() implies (#[trigger] games[k]).0
                    != key by {
                    if k > 0 {
                        assert(rest[k - 1] == games[k]);
                    }
                }
            }
        }
    }
}

/// The marker below which Steam installs games, found no sooner than where it
/// is written.
pub open spec fn marker_begins_at(exe: Seq<char>, at: int) -> bool {
    &&& 0 <= at && at + 17 <= exe.len()
    &&& exe.subrange(at, at + 17) == "steamapps\\common\\"@
    &&& forall|i: int|
        0 <= i < at ==> #[trigger] exe.subrange(i, i + 17) != "steamapps\\common\\"@
}

/// The directory of a game is the first below the first marker, however many
/// directories follow: `before`, the marker, `dir`, a backslash and any `rest`
/// give `dir`, and so they do without backslash and rest. It never holds a
/// backslash, and a path without marker gives none.
pub proof fn law_first_directory_below_the_marker(
    before: Seq<char>,
    dir: Seq<char>,
    rest: Seq<char>,
    other: Seq<char>,
)
    requires
        !dir.contains('\\'),
    ensures
        marker_begins_at(
            before + "steamapps\\common\\"@ + dir + seq!['\\'] + rest,
            before.len() as int,
        ) ==> install_dir(before + "steamapps\\common\\"@ + dir + seq!['\\'] + rest) == Some(dir),
        marker_begins_at(before + "steamapps\\common\\"@ + dir, before.len() as int)
            ==> install_dir(before + "steamapps\\common\\"@ + dir) == Some(dir),
        install_dir(other) matches Some(d) ==> !d.contains('\\'),
        (forall|i: int|
            0 <= i && i + 17 <= other.len() ==> #[trigger] other.subrange(i, i + 17)
                != "steamapps\\common\\"@) <==> install_dir(other) is None,
{
    reveal_strlit("steamapps\\common\\");
    let marker = "steamapps\\common\\"@;
    assert(marker.len() == 17);
    let n = before.len() as int;
    let s = before + marker + dir + seq!['\\'] + rest;
    if marker_begins_at(s, n) {
        lemma_marker_is_found(s, n);
        let after = s.skip(n + 17);
        assert(after =~= dir + seq!['\\'] + rest);
        assert forall|k: int| 0 <= k < dir.len() implies after[k] != '\\' by {
            assert(dir.contains(dir[k]));
        }
        text::lemma_next_position(after, '\\', 0, dir.len() as int);
        assert(after.take(dir.len() as int) =~= dir);
    }
    let t = before + marker + dir;
    if marker_begins_at(t, n) {
        lemma_marker_is_found(t, n);
        let after = t.skip(n + 17);
        assert(after =~= dir);
        assert forall|k: int| 0 <= k < dir.len() implies after[k] != '\\' by {
            assert(dir.contains(dir[k]));
        }
        text::lemma_next_position(after, '\\', 0, dir.len() as int);
        assert(after.take(dir.len() as int) =~= dir);
    }
    text::law_first_part_is_found(other, marker, 0);
    if let Some(at) = text::part_position(other, marker, 0) {
        let after = other.skip(at + 17);
        text::lemma_next_position_is(after, '\\', 0);
        assert(other.subrange(at, at + 17) =~= marker) by {
            assert forall|k: int| 0 <= k < 17 implies other.subrange(at, at + 17)[k]
                == marker[k] by {}
        }
    }
}

proof fn lemma_marker_is_found(exe: Seq<char>, at: int)
    requires
        marker_begins_at(exe, at),
    ensures
        text::part_position(exe, "steamapps\\common\\"@, 0) == Some(at),
        "steamapps\\common\\"@.len() == 17,
{
    reveal_strlit("steamapps\\common\\");
    let marker = "steamapps\\common\\"@;
    text::law_first_part_is_found(exe, marker, 0);
    match text::part_position(exe, marker, 0) {
        Some(found) => {
            assert(exe.subrange(found, found + 17) =~= marker) by {
                assert forall|k: int| 0 <= k < 17 implies exe.subrange(found, found + 17)[k]
                    == marker[k] by {}
            }
        },
        None => {
            assert(exe.subrange(at, at + 17) == marker);
        },
    }
}

/// A Steam game is found by its directory, wherever below it the executable
/// lies and whatever the executable is called; where no Steam game has that
/// directory, or the executable lies in none, the file name decides.
pub proof fn law_game_is_found_wherever_it_runs_from(
    before: Seq<char>,
    dir: Seq<char>,
    rest: Seq<char>,
    file_name: Option<Seq<char>>,
    steam: Seq<(Seq<char>, Seq<char>)>,
    extra: Seq<(Seq<char>, Seq<char>)>,
    i: int,
)
    requires
        !dir.contains('\\'),
        marker_begins_at(
            before + "steamapps\\common\\"@ + dir + seq!['\\'] + rest,
            before.len() as int,
        ),
    ensures
        ({
            let exe = before + "steamapps\\common\\"@ + dir + seq!['\\'] + rest;
            &&& 0 <= i < steam.len() && steam[i].0 == dir && (forall|k: int|
                0 <= k < i ==> (#[trigger] steam[k]).0 != dir) ==> game_of(
                exe,
                file_name,
                steam,
                extra,
            ) == Some(steam[i].1)
            &&& (forall|k: int| 0 <= k < steam.len() ==> (#[trigger] steam[k]).0 != dir) ==> game_of(
                exe,
                file_name,
                steam,
                extra,
            ) == match file_name {
                Some(f) => name_for(extra, f),
                None => None,
            }
        }),
{
    law_first_directory_below_the_marker(before, dir, rest, Seq::empty());
    law_first_game_with_the_key(steam, dir, i);
}

/// A game outside Steam is found by the name of its executable, wherever that
/// lies outside the directories of Steam.
pub proof fn law_other_game_is_found_by_its_file(
    exe: Seq<char>,
    file_name: Seq<char>,
    steam: Seq<(Seq<char>, Seq<char>)>,
    extra: Seq<(Seq<char>, Seq<char>)>,
)
    requires
        forall|i: int|
            0 <= i && i + 17 <= exe.len() ==> #[trigger] exe.subrange(i, i + 17)
                != "steamapps\\common\\"@,
    ensures
        game_of(exe, Some(file_name), steam, extra) == name_for(extra, file_name),
        game_of(exe, None, steam, extra) is None,
{
    law_first_directory_below_the_marker(Seq::empty(), Seq::empty(), Seq::empty(), exe);
}

/// The game that runs is that of the first process that belongs to one, and
/// none runs only where no process does.
pub proof fn law_first_process_of_a_game(
    processes: Seq<ProcessInfo>,
    steam: Seq<(Seq<char>, Seq<char>)>,
    extra: Seq<(Seq<char>, Seq<char>)>,
    i: int,
)
    ensures
        0 <= i < processes.len() && game_of_process(processes[i], steam, extra) is Some && (forall|
            k: int,
        |
            0 <= k < i ==> game_of_process(#[trigger] processes[k], steam, extra) is None)
            ==> running_game(processes, steam, extra) == Some(
            (game_of_process(processes[i], steam, extra)->0, processes[i].pid),
        ),
        0 <= i < processes.len() && game_of_ascii_process(processes[i], steam, extra) is Some && (
        forall|k: int|
            0 <= k < i ==> game_of_ascii_process(#[trigger] processes[k], steam, extra) is None)
            ==> running_ascii_game(processes, steam, extra) == Some(
            (game_of_ascii_process(processes[i], steam, extra)->0, processes[i].pid),
        ),
        (forall|k: int|
            0 <= k < processes.len() ==> game_of_process(#[trigger] processes[k], steam, extra)
                is None) <==> running_game(processes, steam, extra) is None,
        (forall|k: int|
            0 <= k < processes.len() ==> game_of_ascii_process(
                #[trigger] processes[k],
                steam,
                extra,
            ) is None) <==> running_ascii_game(processes, steam, extra) is None,
    decreases processes.len(),
{
    if processes.len() > 0 {
        let rest = processes.skip(1);
        law_first_process_of_a_game(rest, steam, extra, i - 1);
        assert(forall|k: int| 0 <= k < rest.len() ==> #[trigger] rest[k] == processes[k + 1]);
        if forall|k: int|
            0 <= k < rest.len() ==> game_of_process(#[trigger] rest[k], steam, extra) is None {
            assert forall|k: int| 1 <= k < processes.len() implies game_of_process(
                #[trigger] processes[k],
                steam,
                extra,
            ) is None by {
                assert(rest[k - 1] == processes[k]);
            }
        }
        if forall|k: int|
            0 <= k < rest.len() ==> game_of_ascii_process(#[trigger] rest[k], steam, extra)
                is None {
            assert forall|k: int| 1 <= k < processes.len() implies game_of_ascii_process(
                #[trigger] processes[k],
                steam,
                extra,
            ) is None by {
                assert(rest[k - 1] == processes[k]);
            }
        }
    }
}

/// The case of the letters in the path of a process does not matter, and a
/// process whose executable is not known belongs to no game.
pub proof fn law_case_of_a_path_does_not_matter(
    one: ProcessInfo,
    other: ProcessInfo,
    steam: Seq<(Seq<char>, Seq<char>)>,
    extra: Seq<(Seq<char>, Seq<char>)>,
)
    ensures
        one.exe is None ==> game_of_process(one, steam, extra) is None && game_of_ascii_process(
            one,
            steam,
            extra,
        ) is None,
        one.exe is Some && other.exe is Some && (one.file_name is Some <==> other.file_name is Some)
            && text::ascii_upper_text(one.exe->0@) == text::ascii_upper_text(other.exe->0@) && (
        one.file_name is Some ==> text::ascii_upper_text(one.file_name->0@)
            == text::ascii_upper_text(other.file_name->0@)) ==> game_of_ascii_process(
            one,
            steam,
            extra,
        ) == game_of_ascii_process(other, steam, extra),
        one.exe is Some ==> game_of_ascii_process(one, steam, extra) == game_of(
            text::ascii_lower_text(one.exe->0@),
            if one.file_name is Some {
                Some(text::ascii_lower_text(one.file_name->0@))
            } else {
                None
            },
            steam,
            extra,
        ),
        one.exe is Some ==> game_of_process(one, steam, extra) == game_of(
            text::lowercase(one.exe->0@),
            if one.file_name is Some {
                Some(text::lowercase(one.file_name->0@))
            } else {
                None
            },
            steam,
            extra,
        ),
{
    if one.exe is Some && other.exe is Some {
        lemma_same_letters(one.exe->0@, other.exe->0@);
    }
    if one.file_name is Some && other.file_name is Some {
        lemma_same_letters(one.file_name->0@, other.file_name->0@);
    }
}

proof fn lemma_same_letters(a: Seq<char>, b: Seq<char>)
    ensures
        text::ascii_upper_text(a) == text::ascii_upper_text(b) ==> text::ascii_lower_text(a)
            == text::ascii_lower_text(b),
{
    if text::ascii_upper_text(a) == text::ascii_upper_text(b) {
        assert(a.len() == text::ascii_upper_text(a).len());
        assert(b.len() == text::ascii_upper_text(b).len());
        assert forall|i: int| 0 <= i < a.len() implies text::ascii_lower(a[i]) == text::ascii_lower(
            b[i],
        ) by {
            assert(text::ascii_upper_text(a)[i] == text::ascii_upper(a[i]));
            assert(text::ascii_upper_text(b)[i] == text::ascii_upper(b[i]));
            text::law_case_is_changed_on_letters_alone(a[i]);
            text::law_case_is_changed_on_letters_alone(b[i]);
        }
        assert(text::ascii_lower_text(a) =~= text::ascii_lower_text(b));
    }
}

/// A game that runs where none did has started, one in place of another, or the
/// same one in another process, is a switch, and none in place of one is a
/// stop; each event names what runs now.
pub proof fn law_each_change_has_its_event(
    name: Seq<char>,
    pid: u32,
    other: Seq<char>,
    other_pid: u32,
)
    ensures
        event_between(None, Some((name, pid))) == Some(Event::Started(name, pid)),
        name != other || pid != other_pid ==> event_between(
            Some((other, other_pid)),
            Some((name, pid)),
        ) == Some(Event::Switched(name, pid)),
        event_between(Some((name, pid)), Some((name, pid))) is None,
        event_between(Some((name, pid)), None) == Some(Event::Stopped),
        event_between(None, None) is None,
{
}

/// Pairs and games as texts are those that the vectors hold, one for one.
pub proof fn law_views_are_those_of_the_pairs(
    pairs: Seq<(String, String)>,
    games: Seq<KnownGame>,
)
    ensures
        pair_views(pairs).len() == pairs.len(),
        forall|i: int|
            0 <= i < pairs.len() ==> #[trigger] pair_views(pairs)[i] == (pairs[i].0@, pairs[i].1@),
        known(games).len() == games.len(),
        forall|i: int|
            0 <= i < games.len() ==> #[trigger] known(games)[i] == (games[i].key@, games[i].name@),
{
}

} // verus!
