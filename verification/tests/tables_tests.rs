use jx_remake::tables::{extract_spr_from_line, load_action_map, resolve_game_path};

#[test]
fn extracts_quoted_sprite_path() {
    let line = br#"    "full_path": "\spr\npcres\man\stand.spr","#;
    assert_eq!(
        extract_spr_from_line(line),
        Some(b"\\spr\\npcres\\man\\stand.spr".to_vec())
    );
}

#[test]
fn extraction_takes_first_marker_and_nearest_quote() {
    let line = br#"{"a": "x\one.spr", "b": "y\two.spr"}"#;
    assert_eq!(extract_spr_from_line(line), Some(b"x\\one.spr".to_vec()));
}

#[test]
fn line_without_sprite_path_yields_nothing() {
    assert_eq!(extract_spr_from_line(b"\"type\": \"SpecialNpc\","), None);
    assert_eq!(extract_spr_from_line(b""), None);
    assert_eq!(extract_spr_from_line(b".spr"), None);
}

#[test]
fn bare_extension_is_not_a_path() {
    // The quoted text is exactly ".spr": too short to name a file.
    assert_eq!(extract_spr_from_line(br#"".spr""#), None);
}

#[test]
fn marker_without_opening_quote_yields_nothing() {
    assert_eq!(extract_spr_from_line(br#"x.spr""#), None);
}

#[test]
fn resolves_parent_segments() {
    assert_eq!(
        resolve_game_path(b"/spr/npcres", b"..\\man\\body.spr"),
        b"/spr/man/body.spr".to_vec()
    );
    assert_eq!(
        resolve_game_path(b"\\spr\\npcres\\man", b"stand.spr"),
        b"/spr/npcres/man/stand.spr".to_vec()
    );
}

#[test]
fn resolve_drops_empty_and_dot_segments() {
    assert_eq!(resolve_game_path(b"spr//x/.", b"y"), b"/spr/x/y".to_vec());
}

#[test]
fn resolve_stops_popping_at_the_root() {
    assert_eq!(resolve_game_path(b"..", b"../a"), b"/a".to_vec());
    assert_eq!(resolve_game_path(b"", b""), b"/".to_vec());
}

#[test]
fn action_map_holds_the_ten_columns() {
    let m = load_action_map();
    assert_eq!(m.len(), 10);
    assert_eq!(m.get(&0).map(|s| s.as_str()), Some("stand"));
    assert_eq!(m.get(&4).map(|s| s.as_str()), Some("fight_stand"));
    assert_eq!(m.get(&9).map(|s| s.as_str()), Some("die"));
    assert!(m.get(&10).is_none());
}
