use marigold::font::fill_debug_menus;
use std::num::IntErrorKind;
use std::sync::Arc;

use marigold::font::{
    hex_byte, ByteErrorKind, DebugMenu, Font, TextLine, UVec2, GLYPH_COUNT, MAX_CHARS_PER_LINE, MAX_LINES,
};

/// The same reading done with the standard library's parsers.
fn reference(source: &str) -> Result<[u64; 128], ByteErrorKind> {
    let mut bitmap = [0u64; 128];
    for (line_index, line) in source.trim().lines().enumerate() {
        let mut bytes = [0u8; 8];
        for (byte_index, byte) in line.trim().split_ascii_whitespace().enumerate() {
            let byte = u8::from_str_radix(byte, 16).map_err(|e| match e.kind() {
                IntErrorKind::Empty => ByteErrorKind::Empty,
                IntErrorKind::PosOverflow => ByteErrorKind::PosOverflow,
                _ => ByteErrorKind::InvalidDigit,
            })?;
            bytes[byte_index] = byte;
        }
        bitmap[line_index] = u64::from_be_bytes(bytes);
    }
    Ok(bitmap)
}

fn check(source: &str) {
    let ours = Font::parse_bitmap(source);
    let theirs = reference(source);
    assert_eq!(ours.map(|b| b.to_vec()), theirs.map(|b| b.to_vec()), "source {:?}", source);
}

#[test]
fn reads_big_endian_glyphs() {
    let bitmap = Font::parse_bitmap("01 02 03 04 05 06 07 08\nff").unwrap();
    assert_eq!(bitmap[0], 0x0102_0304_0506_0708);
    assert_eq!(bitmap[1], 0xff00_0000_0000_0000);
    assert!(bitmap[2..].iter().all(|&g| g == 0));
    assert_eq!(bitmap.len(), GLYPH_COUNT);
}

#[test]
fn agrees_with_the_standard_parsers() {
    let sources = [
        "",
        "   \n\n  ",
        "00",
        "7e 81 a5 81 bd 99 81 7e",
        "  18 3c 3c 18 18 00 18 00  \r\n 36 36 00 00 00 00 00 00\r\n",
        "1\n\n2",
        "a\tb\x0cc",
        "+f +0A",
        "FF fF 0",
        "\u{a0}12 34\u{a0}",
        "12\u{a0}34",
        "x1",
        "+",
        "-1",
        "100",
        "0000000000ff",
        "12\r\r\n34",
        "ab\n\r\ncd",
    ];
    for s in sources {
        check(s);
    }
}

#[test]
fn errors_name_the_reason() {
    assert_eq!(Font::parse_bitmap("12 zz"), Err(ByteErrorKind::InvalidDigit));
    assert_eq!(Font::parse_bitmap("1ff"), Err(ByteErrorKind::PosOverflow));
    assert_eq!(Font::parse_bitmap("+"), Err(ByteErrorKind::InvalidDigit));
    // a line that is whitespace only after trimming the line holds no byte
    assert_eq!(Font::parse_bitmap("12\n \n34").map(|b| (b[0], b[1], b[2])), Ok((0x12 << 56, 0, 0x34 << 56)));
    // a non-ASCII space splits no bytes
    assert_eq!(Font::parse_bitmap("12\u{a0}34"), Err(ByteErrorKind::InvalidDigit));
}

#[test]
fn hex_bytes() {
    let chars: Vec<char> = "+7fgA100".chars().collect();
    assert_eq!(hex_byte(&chars, 0, 3), Ok(0x7f));
    assert_eq!(hex_byte(&chars, 1, 3), Ok(0x7f));
    assert_eq!(hex_byte(&chars, 2, 2), Err(ByteErrorKind::Empty));
    assert_eq!(hex_byte(&chars, 3, 4), Err(ByteErrorKind::InvalidDigit));
    assert_eq!(hex_byte(&chars, 4, 5), Ok(0xa));
    assert_eq!(hex_byte(&chars, 4, 7), Err(ByteErrorKind::PosOverflow));
    assert_eq!(hex_byte(&chars, 0, 1), Err(ByteErrorKind::InvalidDigit));
}

fn sample_font() -> Font {
    let mut source = String::new();
    for c in 0..128u32 {
        source.push_str(&format!("{:02x} 00 00 00 {:02x} 00 00 01\n", c, 255 - c));
    }
    Font::new(&source)
}

#[test]
fn font_spacing() {
    let font = sample_font();
    assert_eq!((font.char_size, font.char_padding, font.line_size, font.line_padding), (8, 1, 8, 1));
    assert_eq!(font.bitmap[65], 0x4100_0000_be00_0001);
}

#[test]
fn text_lines_split_glyphs_into_halves() {
    let font = sample_font();
    let mut line = TextLine::new(4);
    line.set_text(&font, "A\u{c1}");
    let (chars, count) = line.gpu_characters();
    assert_eq!(count, 2);
    assert_eq!(line.line_index(), 4);
    assert_eq!(chars.len(), MAX_CHARS_PER_LINE);
    assert_eq!(chars[0], UVec2 { x: 0xbe00_0001, y: 0x4100_0000 });
    // U+00C1 is byte 0xc1, glyph 0x41
    assert_eq!(chars[1], chars[0]);
    assert!(chars[2..].iter().all(|c| *c == UVec2 { x: 0, y: 0 }));
    line.set_text(&font, "");
    assert_eq!(line.gpu_characters().1, 0);
}

#[test]
fn menu_lines_are_numbered_in_order() {
    let font = Arc::new(sample_font());
    let mut menu = DebugMenu::new(font);
    menu.println("ab");
    menu.println("c");
    assert_eq!(menu.line_count(), 2);
    assert_eq!(menu.line(0).line_index(), 0);
    assert_eq!(menu.line(1).line_index(), 1);
    assert_eq!(menu.line(1).gpu_characters().1, 1);
    let lines = menu.gpu_lines();
    assert_eq!(lines.len(), MAX_LINES);
    assert_eq!((lines[0].0, lines[0].2), (0, 2));
    assert_eq!((lines[1].0, lines[1].2), (1, 1));
    assert_eq!(lines[1].1[0], menu.line(1).gpu_characters().0[0]);
    assert_eq!((lines[2].0, lines[2].2), (0, 0));
    assert!(lines[2].1.iter().all(|c| *c == UVec2 { x: 0, y: 0 }));
    assert_eq!(lines[2].1.len(), MAX_CHARS_PER_LINE);
    menu.reset();
    assert_eq!(menu.line_count(), 0);
    menu.println("z");
    assert_eq!(menu.line(0).line_index(), 0);
}

#[test]
fn debug_menus_are_refilled_each_frame() {
    let font = Arc::new(sample_font());
    let mut left = DebugMenu::new(font.clone());
    let mut right = DebugMenu::new(font);
    left.println("stale");
    fill_debug_menus(&mut left, &mut right);
    assert_eq!(left.line_count(), 21);
    assert_eq!(right.line_count(), 32);
    for i in 0..21 {
        assert_eq!(left.line(i).line_index(), i as u32);
    }
    assert_eq!(left.line(0).gpu_characters().1, "Rachel Amber mentioned!! Rachel isn't just a character.".len() as u32);
    assert_eq!(right.line(31).gpu_characters().1, "to re-park soon!".len() as u32);
    fill_debug_menus(&mut left, &mut right);
    assert_eq!(left.line_count(), 21);
}
