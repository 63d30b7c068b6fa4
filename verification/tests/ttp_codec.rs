use pacarc::errors::FormatError;
use pacarc::ttp::{ResName, TtpFile, TtpFrame};

fn frame(sprite: &str, se: &str, textbox: &str, base: u32) -> TtpFrame {
    TtpFrame {
        sprite_name: ResName::from_text(sprite).unwrap(),
        se_name: ResName::from_text(se).unwrap(),
        textbox_name: ResName::from_text(textbox).unwrap(),
        delay_ms: base,
        x_offset_textbox: base + 1,
        y_offset_textbox: base + 2,
        x_offset: base + 3,
        y_offset: base + 4,
    }
}

#[test]
fn ttp_round_trip_kind_three_keeps_trailing_flag() {
    let file = TtpFile {
        maybe_ttp_type: 3,
        frame_count: 2,
        window_width: 640,
        window_height: 480,
        frames: vec![
            frame("sprite_a.bmp", "chime.wav", "box_a", 100),
            frame("\u{30C6}\u{30B9}\u{30C8}.bmp", "", "box_b", 200),
        ],
        unk_bool: Some(1),
    };
    let bytes = file.serialize();
    let parsed = TtpFile::parse(&bytes).unwrap();
    assert_eq!(parsed.maybe_ttp_type, 3);
    assert_eq!(parsed.unk_bool, Some(1));
    assert_eq!(
        parsed.frames[0].sprite_name.decoded().unwrap(),
        "sprite_a.bmp"
    );
    assert_eq!(parsed.frames[0].se_name.decoded().unwrap(), "chime.wav");
    assert_eq!(parsed.frames[0].textbox_name.decoded().unwrap(), "box_a");
    assert_eq!(
        parsed.frames[1].sprite_name.decoded().unwrap(),
        "\u{30C6}\u{30B9}\u{30C8}.bmp"
    );
    assert_eq!(parsed.frames[1].se_name.decoded().unwrap(), "");
    assert_eq!(parsed.frames[1].textbox_name.decoded().unwrap(), "box_b");
    assert_eq!(parsed, file);
}

#[test]
fn ttp_round_trip_other_kind_has_no_trailing_flag() {
    let file = TtpFile {
        maybe_ttp_type: 1,
        frame_count: 1,
        window_width: 320,
        window_height: 240,
        frames: vec![frame("s.bmp", "s.wav", "t", 7)],
        unk_bool: None,
    };
    let bytes = file.serialize();
    // Exactly the header, the frame, and nothing after it.
    let frame_len = 4 + 5 + 4 + 5 + 4 + 1 + 20;
    assert_eq!(bytes.len(), 16 + frame_len);
    let parsed = TtpFile::parse(&bytes).unwrap();
    assert_eq!(parsed.unk_bool, None);
    assert_eq!(parsed, file);
}

#[test]
fn ttp_parse_truncated() {
    assert_eq!(TtpFile::parse(&[1, 0, 0, 0]).unwrap_err(), FormatError::Truncated);
    // Header announces one frame but none follows.
    let mut bytes = Vec::new();
    bytes.extend_from_slice(&1u32.to_le_bytes());
    bytes.extend_from_slice(&1u32.to_le_bytes());
    bytes.extend_from_slice(&640u32.to_le_bytes());
    bytes.extend_from_slice(&480u32.to_le_bytes());
    assert_eq!(TtpFile::parse(&bytes).unwrap_err(), FormatError::Truncated);
}

#[test]
fn ttp_parse_missing_trailing_flag() {
    // Kind 3 with no frames demands one more byte after the header.
    let mut bytes = Vec::new();
    bytes.extend_from_slice(&3u32.to_le_bytes());
    bytes.extend_from_slice(&0u32.to_le_bytes());
    bytes.extend_from_slice(&640u32.to_le_bytes());
    bytes.extend_from_slice(&480u32.to_le_bytes());
    assert_eq!(TtpFile::parse(&bytes).unwrap_err(), FormatError::Truncated);
    bytes.push(1);
    let parsed = TtpFile::parse(&bytes).unwrap();
    assert_eq!(parsed.unk_bool, Some(1));
    assert_eq!(parsed.frames.len(), 0);
}

#[test]
fn resname_encodes_shift_jis() {
    let name = ResName::from_text("\u{30C6}").unwrap();
    assert_eq!(name.raw_bytes(), &[0x83, 0x65]);
    assert_eq!(name.decoded().unwrap(), "\u{30C6}");
    assert!(ResName::from_text("\u{1F3AE}").is_err());
}
