use sfl_parser::BMFont;
use sfl_parser::ParseError;

fn descriptor(header: &str, count_line: &str, glyph_lines: &[&str]) -> String {
    let mut text = String::from("TestFont\n");
    text.push_str(header);
    text.push_str("\natlas.png\n");
    text.push_str(count_line);
    for line in glyph_lines {
        text.push('\n');
        text.push_str(line);
    }
    text
}

#[test]
fn test_too_few_lines() {
    let r = BMFont::load_sfl("TestFont\n32 56\natlas.png\n0");
    assert_eq!(r.unwrap_err(), ParseError::TooFewLines);
}

#[test]
fn test_empty_text() {
    let r = BMFont::load_sfl("");
    assert_eq!(r.unwrap_err(), ParseError::TooFewLines);
}

#[test]
fn test_count_mismatch() {
    let text = descriptor("32 56", "3", &["1 0 0 0 0 0 0 0", "2 0 0 0 0 0 0 0"]);
    let r = BMFont::load_sfl(&text);
    assert_eq!(
        r.unwrap_err(),
        ParseError::GlyphCountMismatch { remaining: 2, declared: 3 }
    );
}

#[test]
fn test_header_shape_one_token() {
    let text = descriptor("32", "0", &["x"]);
    let r = BMFont::load_sfl(&text);
    assert_eq!(r.unwrap_err(), ParseError::HeaderShape);
}

#[test]
fn test_header_shape_three_tokens() {
    let text = descriptor("32 56 7", "0", &["x"]);
    let r = BMFont::load_sfl(&text);
    assert_eq!(r.unwrap_err(), ParseError::HeaderShape);
}

#[test]
fn test_header_shape_double_space() {
    let text = descriptor("32  56", "0", &["x"]);
    let r = BMFont::load_sfl(&text);
    assert_eq!(r.unwrap_err(), ParseError::HeaderShape);
}

#[test]
fn test_size_parse_error() {
    let text = descriptor("abc 56", "0", &["x"]);
    let r = BMFont::load_sfl(&text);
    assert_eq!(r.unwrap_err(), ParseError::SizeParse);
}

#[test]
fn test_size_overflow() {
    let text = descriptor("4294967296 56", "0", &["x"]);
    let r = BMFont::load_sfl(&text);
    assert_eq!(r.unwrap_err(), ParseError::SizeParse);
}

#[test]
fn test_line_height_parse_error() {
    let text = descriptor("32 -56", "0", &["x"]);
    let r = BMFont::load_sfl(&text);
    assert_eq!(r.unwrap_err(), ParseError::LineHeightParse);
}

#[test]
fn test_glyph_count_parse_error() {
    let text = descriptor("32 56", "many", &["x"]);
    let r = BMFont::load_sfl(&text);
    assert_eq!(r.unwrap_err(), ParseError::GlyphCountParse);
}

#[test]
fn test_glyph_too_few_parts() {
    let text = descriptor("32 56", "2", &["1 0 0 0 0 0 0 0", "2 0 0 0 0 0 0"]);
    let r = BMFont::load_sfl(&text);
    assert_eq!(r.unwrap_err(), ParseError::GlyphTooFewParts { glyph: 2 });
}

#[test]
fn test_glyph_parse_error() {
    let text = descriptor("32 56", "2", &["1 0 0 0 0 0 0 0", "2 0 zero 0 0 0 0 0"]);
    let r = BMFont::load_sfl(&text);
    assert_eq!(r.unwrap_err(), ParseError::GlyphParse { glyph: 2 });
}

#[test]
fn test_glyph_double_space_empty_token() {
    let text = descriptor("32 56", "1", &["1 0  0 0 0 0 0 0"]);
    let r = BMFont::load_sfl(&text);
    assert_eq!(r.unwrap_err(), ParseError::GlyphParse { glyph: 1 });
}

#[test]
fn test_duplicate_glyph_id() {
    let text = descriptor("32 56", "2", &["5 1 2 3 4 5 6 7", "5 9 8 7 6 5 4 3"]);
    let font = BMFont::load_sfl(&text).unwrap();
    assert_eq!(font.chars.len(), 1);
    let ch = &font.chars[&5];
    assert_eq!(ch.id, 5);
    assert_eq!(ch.x, 9);
    assert_eq!(ch.y, 8);
    assert_eq!(ch.width, 7);
    assert_eq!(ch.height, 6);
    assert_eq!(ch.xoffset, 5);
    assert_eq!(ch.yoffset, 4);
    assert_eq!(ch.xadvance, 3);
}

#[test]
fn test_parse_idempotent() {
    let text = descriptor("32 56", "2", &["5 1 2 3 4 5 6 7", "6 9 8 7 6 5 4 3"]);
    let a = BMFont::load_sfl(&text).unwrap();
    let b = BMFont::load_sfl(&text).unwrap();
    assert_eq!(a.font_name, b.font_name);
    assert_eq!(a.image_path, b.image_path);
    assert_eq!(a.line_height, b.line_height);
    assert_eq!(a.size, b.size);
    assert_eq!(a.chars, b.chars);
}

#[test]
fn test_load_sfl_keeps_third_line() {
    let text = descriptor("32 56", "1", &["1 2 3 4 5 6 7 8"]);
    let font = BMFont::load_sfl(&text).unwrap();
    assert_eq!(font.image_path, "atlas.png");
}

#[test]
fn test_from_loaded_overrides_path() {
    let text = descriptor("32 56", "1", &["1 2 3 4 5 6 7 8"]);
    let font = BMFont::from_loaded(&text, "elsewhere/atlas2.png").unwrap();
    assert_eq!(font.image_path, "elsewhere/atlas2.png");
}

#[test]
fn test_header_order_swapped() {
    let text = descriptor("32 56", "0", &["unused trailing line"]);
    let font = BMFont::load_sfl(&text).unwrap();
    assert_eq!(font.size, 32);
    assert_eq!(font.line_height, 56);
}

#[test]
fn test_extra_glyph_tokens_ignored() {
    let text = descriptor("32 56", "1", &["1 2 3 4 5 6 7 8 99 100"]);
    let font = BMFont::load_sfl(&text).unwrap();
    let ch = &font.chars[&1];
    assert_eq!(ch.xadvance, 8);
}

#[test]
fn test_negative_id_key_wraps() {
    let text = descriptor("32 56", "1", &["-1 2 3 4 5 6 7 8"]);
    let font = BMFont::load_sfl(&text).unwrap();
    let ch = &font.chars[&4294967295];
    assert_eq!(ch.id, -1);
    assert_eq!(ch.x, 2);
}

#[test]
fn test_glyph_i32_bounds() {
    let ok = descriptor("32 56", "1", &["1 2147483647 -2147483648 0 0 0 0 0"]);
    let font = BMFont::load_sfl(&ok).unwrap();
    assert_eq!(font.chars[&1].x, 2147483647);
    assert_eq!(font.chars[&1].y, -2147483648);
    let over = descriptor("32 56", "1", &["1 2147483648 0 0 0 0 0 0"]);
    let r = BMFont::load_sfl(&over);
    assert_eq!(r.unwrap_err(), ParseError::GlyphParse { glyph: 1 });
}

#[test]
fn test_plus_signs_accepted() {
    let text = descriptor("+32 56", "1", &["+1 +2 3 4 5 6 7 8"]);
    let font = BMFont::load_sfl(&text).unwrap();
    assert_eq!(font.size, 32);
    assert_eq!(font.chars[&1].x, 2);
}

#[test]
fn test_crlf_line_endings() {
    let text = "TestFont\r\n32 56\r\natlas.png\r\n1\r\n1 2 3 4 5 6 7 8\r\n";
    let font = BMFont::load_sfl(text).unwrap();
    assert_eq!(font.font_name, "TestFont");
    assert_eq!(font.size, 32);
    assert_eq!(font.line_height, 56);
    assert_eq!(font.image_path, "atlas.png");
    assert_eq!(font.chars.len(), 1);
    assert_eq!(font.chars[&1].xadvance, 8);
}

#[test]
fn test_exact_glyph_count_accepted() {
    let text = descriptor("32 56", "2", &["1 0 0 0 0 0 0 0", "2 0 0 0 0 0 0 0"]);
    let font = BMFont::load_sfl(&text).unwrap();
    assert_eq!(font.chars.len(), 2);
}

#[test]
fn test_read_character_direct() {
    let ch = BMFont::read_character("7 1 2 3 4 5 6 8", 1).unwrap();
    assert_eq!(ch.id, 7);
    assert_eq!(ch.x, 1);
    assert_eq!(ch.y, 2);
    assert_eq!(ch.width, 3);
    assert_eq!(ch.height, 4);
    assert_eq!(ch.xoffset, 5);
    assert_eq!(ch.yoffset, 6);
    assert_eq!(ch.xadvance, 8);
    let short = BMFont::read_character("7 1 2 3 4 5 6", 4);
    assert_eq!(short.unwrap_err(), ParseError::GlyphTooFewParts { glyph: 4 });
}
