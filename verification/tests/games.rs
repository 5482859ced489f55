use snapple::config::ExtraGame;
use snapple::games::{
    detect_game, identify_game, is_app_manifest, lists_text, load_steam_games, next_game_event,
    parse_kv_pairs, parse_library_folders, read_manifest, watch_list, GameEvent, GameTracker,
    KnownGame, ProcessInfo,
};

fn game(key: &str, name: &str) -> KnownGame {
    KnownGame { key: key.to_string(), name: name.to_string() }
}

fn process(pid: u32, exe: Option<&str>) -> ProcessInfo {
    ProcessInfo {
        pid,
        exe: exe.map(|e| e.to_string()),
        file_name: exe.map(|e| e.rsplit('\\').next().unwrap().to_string()),
    }
}

fn pairs(text: &str) -> Vec<(String, String)> {
    parse_kv_pairs(text)
}

#[test]
fn parses_vdf_key_value_pairs() {
    let text = "\"libraryfolders\"\n{\n    \"0\"\n    {\n        \"path\"    \"D:\\\\SteamLibrary\"\n    }\n}";
    let pairs = parse_kv_pairs(text);
    assert!(pairs.iter().any(|(k, v)| k == "path" && v == r"D:\\SteamLibrary"));
}

#[test]
fn emits_started_when_first_game_appears() {
    let event = next_game_event(None, Some(("Game A", 101)));
    assert!(matches!(
        event,
        Some(GameEvent::Started { name, pid }) if name == "Game A" && pid == 101
    ));
}

#[test]
fn emits_switch_when_different_game_is_detected() {
    let event = next_game_event(Some(("Game A", 101)), Some(("Game B", 202)));
    assert!(matches!(
        event,
        Some(GameEvent::Switched { name, pid }) if name == "Game B" && pid == 202
    ));
}

#[test]
fn emits_switch_when_same_game_restarts_with_new_pid() {
    let event = next_game_event(Some(("Game A", 101)), Some(("Game A", 202)));
    assert!(matches!(
        event,
        Some(GameEvent::Switched { name, pid }) if name == "Game A" && pid == 202
    ));
}

#[test]
fn emits_stopped_when_last_game_closes() {
    let event = next_game_event(Some(("Game A", 101)), None);
    assert!(matches!(event, Some(GameEvent::Stopped)));
}

#[test]
fn emits_nothing_when_same_game_and_pid_remain() {
    let event = next_game_event(Some(("Game A", 101)), Some(("Game A", 101)));
    assert!(event.is_none());
}

#[test]
fn nothing_is_announced_while_nothing_runs() {
    assert!(next_game_event(None, None).is_none());
}

#[test]
fn pairs_are_found_between_anything_else() {
    assert_eq!(
        pairs("x{\"a\"\t \"b\"}\n\"c\"\u{3000}\"\"\"d\"\"e\""),
        vec![
            ("a".to_string(), "b".to_string()),
            ("c".to_string(), "".to_string()),
            ("d".to_string(), "e".to_string()),
        ]
    );
    // A key without a value is passed over; an unclosed value runs to the end.
    assert_eq!(pairs("\"a\" { \"k\" \"v"), vec![("k".to_string(), "v".to_string())]);
    assert!(pairs("\"a\"").is_empty());
    assert!(pairs("\"a").is_empty());
    assert!(pairs("").is_empty());
    // The character after a key that has no value is read again.
    assert_eq!(pairs("\"a\"x\"b\"\"c\""), vec![("b".to_string(), "c".to_string())]);
}

#[test]
fn library_index_names_libraries() {
    let index = "\"libraryfolders\" { \"0\" { \"path\" \"C:/Steam\" } \"1\" { \"path\" \"D:/Lib\" } }";
    assert_eq!(parse_library_folders(Some(index), "S"), vec!["C:/Steam", "D:/Lib"]);
    assert_eq!(parse_library_folders(Some("\"Path\" \"D:/Lib\""), "S"), vec!["S"]);
    assert_eq!(parse_library_folders(None, "S"), vec!["S"]);
}

#[test]
fn manifests_are_recognised_by_name() {
    assert!(is_app_manifest("appmanifest_440.acf"));
    assert!(is_app_manifest("appmanifest_.acf"));
    assert!(!is_app_manifest("appmanifest_440.acf.tmp"));
    assert!(!is_app_manifest("x_appmanifest_440.acf"));
    assert!(!is_app_manifest("acf"));
}

#[test]
fn manifests_give_games_unless_skipped() {
    let skip = vec!["228980".to_string()];
    let halo = "\"AppState\" { \"appid\" \"1240440\" \"name\" \"Halo Infinite\" \"installdir\" \"Halo Infinite\" }";
    let redist = "\"appid\" \"228980\" \"name\" \"Redist\" \"installdir\" \"Shared\"";
    let nameless = "\"appid\" \"1\" \"installdir\" \"X\"";
    let homeless = "\"appid\" \"1\" \"name\" \"X\"";
    assert_eq!(
        read_manifest(halo, &skip),
        Some(("Halo Infinite".to_string(), "Halo Infinite".to_string()))
    );
    assert!(read_manifest(redist, &skip).is_none());
    assert!(read_manifest(nameless, &skip).is_none());
    assert!(read_manifest(homeless, &skip).is_none());
    // The last of several values counts.
    let twice = "\"name\" \"A\" \"installdir\" \"d\" \"name\" \"B\"";
    assert_eq!(read_manifest(twice, &skip).unwrap().1, "B");
    // A manifest without an id is skipped where the empty id is.
    assert!(read_manifest(twice, &vec![String::new()]).is_none());

    let manifests = vec![redist.to_string(), halo.to_string(), nameless.to_string()];
    let games = load_steam_games(&manifests, &skip);
    assert_eq!(games.len(), 1);
    assert_eq!(games[0].key, "halo infinite");
    assert_eq!(games[0].name, "Halo Infinite");
}

#[test]
fn lists_are_searched_for_whole_texts() {
    let list = vec!["a".to_string(), "bc".to_string()];
    assert!(lists_text(&list, "bc"));
    assert!(!lists_text(&list, "b"));
}

#[test]
fn games_are_identified_by_directory_then_by_executable() {
    let steam = vec![game("halo infinite", "Halo"), game("", "Nameless")];
    let extra = vec![game("g.exe", "Extra")];
    let halo = "d:\\steamapps\\common\\halo infinite\\g.exe";
    let name = identify_game(halo, Some("g.exe"), &steam, &extra);
    assert_eq!(name.as_deref(), Some("Halo"));
    let other = "d:\\steamapps\\common\\unknown\\g.exe";
    let name = identify_game(other, Some("g.exe"), &steam, &extra);
    assert_eq!(name.as_deref(), Some("Extra"));
    assert!(identify_game(other, Some("h.exe"), &steam, &extra).is_none());
    assert!(identify_game(other, None, &steam, &extra).is_none());
    // Nothing below the marker.
    let bare = "d:\\steamapps\\common\\";
    assert_eq!(identify_game(bare, None, &steam, &extra).as_deref(), Some("Nameless"));
    // The first marker counts.
    let nested = "steamapps\\common\\a\\steamapps\\common\\halo infinite\\x";
    assert!(identify_game(nested, None, &steam, &extra).is_none());
}

#[test]
fn the_first_matching_process_is_detected() {
    let steam = vec![game("halo infinite", "Halo")];
    let extra = watch_list(&vec![ExtraGame {
        name: "Osu".to_string(),
        exe: "OSU!.exe".to_string(),
    }]);
    assert_eq!(extra[0].key, "osu!.exe");
    let processes = vec![
        process(1, None),
        process(2, Some("C:\\Windows\\explorer.exe")),
        process(3, Some("C:\\Games\\osu!.EXE")),
        process(4, Some("D:\\SteamApps\\Common\\Halo Infinite\\halo.exe")),
    ];
    assert_eq!(detect_game(&processes, &steam, &extra), Some(("Osu".to_string(), 3)));
    assert_eq!(detect_game(&processes, &steam, &vec![]), Some(("Halo".to_string(), 4)));
    assert_eq!(detect_game(&processes, &vec![], &vec![]), None);
}

#[test]
fn tracker_announces_each_change_once() {
    let mut tracker = GameTracker::new();
    let a = || Some(("A".to_string(), 1));
    assert!(tracker.observe(None).is_none());
    assert!(matches!(tracker.observe(a()), Some(GameEvent::Started { pid: 1, .. })));
    assert!(tracker.observe(a()).is_none());
    let switched = tracker.observe(Some(("B".to_string(), 1)));
    assert!(matches!(switched, Some(GameEvent::Switched { name, pid: 1 }) if name == "B"));
    assert!(matches!(tracker.observe(None), Some(GameEvent::Stopped)));
    assert!(tracker.observe(None).is_none());
    assert!(tracker.current.is_none());
}
