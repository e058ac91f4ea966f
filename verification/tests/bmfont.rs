use sfl_parser::BMFont;

fn font_fixture() -> String {
    let mut text = String::from("Iosevka\n32 56\niosevka.png\n191");
    for i in 0..191 {
        if i == 65 {
            text.push_str("\n65 77 168 18 33 2 23 22");
        } else {
            text.push_str(&format!("\n{} 1 2 3 4 5 6 7", i));
        }
    }
    text
}

fn font_setup() -> BMFont {
    match BMFont::from_loaded(&font_fixture(), "examples/fonts/iosevka.png") {
        Ok(bmfont) => bmfont,
        Err(_) => panic!("Failed to load iosevka.sfl"),
    }
}

#[test]
fn test_font_name() {
    let bmfont = font_setup();
    assert_eq!(bmfont.font_name, "Iosevka");
}

#[test]
fn test_line_height() {
    let bmfont = font_setup();
    assert_eq!(bmfont.line_height, 56);
}

#[test]
fn test_size() {
    let bmfont = font_setup();
    assert_eq!(bmfont.size, 32);
}

#[test]
fn test_image_path() {
    let bmfont = font_setup();
    assert_eq!(bmfont.image_path, "examples/fonts/iosevka.png");
}

#[test]
fn test_character_amount() {
    let bmfont = font_setup();
    assert_eq!(bmfont.chars.len(), 191);
}
