use hitbox_editor::paths::normalize_path;

fn norm(s: &str) -> Vec<u8> {
    normalize_path(&s.as_bytes().to_vec())
}

#[test]
fn path_after_assets_is_kept() {
    assert_eq!(norm("game/assets/sprites/punch.png"), b"sprites/punch.png".to_vec());
    assert_eq!(norm("assets/punch.png"), b"punch.png".to_vec());
}

#[test]
fn path_without_assets_is_emptied() {
    assert_eq!(norm("game/sprites/punch.png"), b"".to_vec());
    assert_eq!(norm(""), b"".to_vec());
}

#[test]
fn assets_must_be_a_whole_component() {
    assert_eq!(norm("my_assets/punch.png"), b"".to_vec());
    assert_eq!(norm("game/assets"), b"".to_vec());
}

#[test]
fn only_the_first_assets_component_is_stripped() {
    assert_eq!(norm("assets/assets/punch.png"), b"assets/punch.png".to_vec());
}
