use sfl_parser::BMFont;

fn character_fixture() -> String {
    let mut text = String::from("Iosevka\n32 56\niosevka.png\n191");
    for i in 0..191 {
        if i == 65 {
            text.push_str("\n65 77 168 18 33 2 23 22");
        } else {
            text.push_str(&format!("\n{} 1 2 3 4 5 6 7", i));
        }
    }
    text
}

fn character_setup() -> BMFont {
    match BMFont::from_loaded(&character_fixture(), "examples/fonts/iosevka.png") {
        Ok(bmfont) => bmfont,
        Err(_) => panic!("Failed to load iosevka.sfl"),
    }
}

#[test]
fn test_character_id() {
    let bmfont = character_setup();
    assert_eq!(bmfont.chars[&65].id, 65);
}

#[test]
fn test_character_coordinates() {
    let bmfont = character_setup();
    assert_eq!(bmfont.chars[&65].x, 77);
    assert_eq!(bmfont.chars[&65].y, 168);
}

#[test]
fn test_character_size() {
    let bmfont = character_setup();
    assert_eq!(bmfont.chars[&65].width, 18);
    assert_eq!(bmfont.chars[&65].height, 33);
}

#[test]
fn test_character_offsets() {
    let bmfont = character_setup();
    assert_eq!(bmfont.chars[&65].xoffset, 2);
    assert_eq!(bmfont.chars[&65].yoffset, 23);
}

#[test]
fn test_character_xadvance() {
    let bmfont = character_setup();
    assert_eq!(bmfont.chars[&65].xadvance, 22);
}
