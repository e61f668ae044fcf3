use cowsay::assets::{get, list, list_cows, Assets};
use cowsay::eyes::{resolve_eyes, voice_glyph};
use cowsay::render;

#[test]
fn borg_wins_over_dead() {
    let eyes = resolve_eyes(true, true, false, false, false, false, false, false, "");
    assert_eq!(eyes, "==");
}

#[test]
fn first_enabled_preset_wins() {
    assert_eq!(
        resolve_eyes(false, true, true, false, false, false, false, false, ""),
        "xx"
    );
    assert_eq!(
        resolve_eyes(false, false, false, false, false, false, false, true, ""),
        ".."
    );
}

#[test]
fn presets_beat_custom_eyes() {
    let eyes = resolve_eyes(false, false, false, false, false, true, false, false, "^^");
    assert_eq!(eyes, "--");
}

#[test]
fn custom_eyes_beat_default() {
    let eyes = resolve_eyes(false, false, false, false, false, false, false, false, "^^");
    assert_eq!(eyes, "^^");
}

#[test]
fn default_eyes_when_nothing_set() {
    let eyes = resolve_eyes(false, false, false, false, false, false, false, false, "");
    assert_eq!(eyes, "oo");
}

#[test]
fn voice_follows_mode() {
    assert_eq!(voice_glyph(true), "o");
    assert_eq!(voice_glyph(false), "\\");
}

#[test]
fn get_finds_the_default_template() {
    let body = get("default.cow").expect("default template present");
    assert!(body.contains("$eyes"));
    assert!(body.contains("$thoughts"));
    assert!(body.contains("$tongue"));
}

#[test]
fn get_misses_an_unknown_name() {
    assert!(get("gnu.cow").is_none());
}

#[test]
fn store_lookup_matches_free_get() {
    let store = Assets::new();
    let a = store.lookup("small.cow");
    let b = get("small.cow");
    assert_eq!(a.is_some(), b.is_some());
    assert_eq!(a.unwrap(), b.unwrap());
}

#[test]
fn list_names_end_in_cow() {
    let names = list();
    assert!(names.len() >= 1);
    for n in &names {
        assert!(n.ends_with(".cow"));
    }
}

#[test]
fn list_cows_strips_the_extension() {
    let names: Vec<String> = list_cows().iter().map(|n| n.iter().collect()).collect();
    assert!(names.contains(&"default".to_string()));
    assert!(names.contains(&"small".to_string()));
    for n in &names {
        assert!(!n.contains(".cow"));
    }
}

#[test]
fn default_cow_renders_fully() {
    let body = get("default.cow").unwrap();
    let figure: String = cowsay::figure::format_animal(&body, "\\", "oo", " ")
        .iter()
        .collect();
    let expected = "        \\   ^__^\n         \\  (oo)\\_______\n            (__)\\       )\\/\\\n               ||----w |\n                ||     ||";
    assert_eq!(figure, expected);
}

#[test]
fn render_keeps_mode_consistent() {
    let body = get("default.cow").unwrap();
    let (bubble, figure) = render("moo", &body, 40, true, true, "oo", " ");
    let bubble: String = bubble.iter().collect();
    let figure: String = figure.iter().collect();
    assert_eq!(bubble, " _____\n( moo )\n -----");
    assert!(figure.contains("o   ^__^"));
    assert!(!figure.contains("$thoughts"));
}

#[test]
fn speech_render_uses_backslash_link() {
    let body = get("default.cow").unwrap();
    let (bubble, figure) = render("moo", &body, 40, false, true, "oo", " ");
    let bubble: String = bubble.iter().collect();
    let figure: String = figure.iter().collect();
    assert_eq!(bubble, " _____\n< moo >\n -----");
    assert!(figure.contains("\\   ^__^"));
}
