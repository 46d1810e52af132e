use tesseras_repl::banner::{banner_lines, BANNER_HEIGHT, BANNER_WIDTH};
use tesseras_repl::terminal::{
    is_light_terminal, parse_channel, parse_osc11_reply, parse_osc11_response, reply_is_read,
    REPLY_CAPACITY,
};

#[test]
fn osc11_dark_background() {
    let resp = "\x1b]11;rgb:0000/0000/0000\x1b\\";
    assert_eq!(parse_osc11_response(resp), Some(false));
}

#[test]
fn osc11_light_background() {
    let resp = "\x1b]11;rgb:ffff/ffff/ffff\x1b\\";
    assert_eq!(parse_osc11_response(resp), Some(true));
}

#[test]
fn osc11_8bit_values() {
    let resp = "\x1b]11;rgb:ff/ff/ff\x1b\\";
    assert_eq!(parse_osc11_response(resp), Some(true));
}

#[test]
fn osc11_mid_gray_is_dark() {
    // rgb 128,128,128 -> luma = 128.0, not > 128 -> dark
    let resp = "\x1b]11;rgb:8080/8080/8080\x1b\\";
    assert_eq!(parse_osc11_response(resp), Some(false));
}

#[test]
fn osc11_invalid_input() {
    assert_eq!(parse_osc11_response("garbage"), None);
    assert_eq!(parse_osc11_response(""), None);
}

#[test]
fn osc11_bel_terminator() {
    let resp = "\x1b]11;rgb:ffff/ffff/ffff\x07";
    assert_eq!(parse_osc11_response(resp), Some(true));
}

#[test]
fn luminance_is_that_of_bt601() {
    for r in (0u16..256).step_by(5) {
        for g in (0u16..256).step_by(3) {
            for b in (0u16..256).step_by(5) {
                let luma = 0.299 * r as f32 + 0.587 * g as f32 + 0.114 * b as f32;
                let reply = format!("rgb:{r:02x}/{g:02x}/{b:02x}\x07");
                assert_eq!(parse_osc11_response(&reply), Some(luma > 128.0), "{reply}");
            }
        }
    }
}

#[test]
fn grays_turn_light_above_the_middle() {
    for v in 0u16..256 {
        assert_eq!(parse_osc11_response(&format!("rgb:{v:x}/{v:x}/{v:x}")), Some(v > 128));
    }
}

#[test]
fn wide_channels_give_the_same_verdict() {
    for (r, g, b) in [(0u32, 0, 0), (255, 0, 0), (0, 255, 0), (129, 129, 129), (200, 90, 77)] {
        let narrow = parse_osc11_response(&format!("rgb:{r:02x}/{g:02x}/{b:02x}"));
        let wide = parse_osc11_response(&format!(
            "rgb:{:04x}/{:04x}/{:04x}",
            257 * r,
            257 * g,
            257 * b
        ));
        assert_eq!(narrow, wide);
    }
}

#[test]
fn channels_go_by_their_digits() {
    assert_eq!(parse_osc11_response("\x1b]11;rgb:00ff/00ff/00ff\x1b\\"), Some(false));
    assert_eq!(parse_osc11_response("rgb:00ff/00ff/00ff"), Some(false));
    assert_eq!(parse_osc11_response("rgb:80ff/80ff/80ff"), Some(false));
    assert_eq!(parse_osc11_response("rgb:8100/8100/8100"), Some(true));
    assert_eq!(parse_osc11_response("rgb:ff/ff/0100"), Some(true));
    assert_eq!(parse_osc11_response("rgb:00ff/ff/00ff"), Some(true));
}

#[test]
fn other_widths_go_by_value() {
    assert_eq!(parse_osc11_response("rgb:0ff/0ff/0ff"), Some(true));
    assert_eq!(parse_osc11_response("rgb:000ff/000ff/000ff"), Some(true));
    assert_eq!(parse_osc11_response("rgb:fff/fff/fff"), Some(false));
    assert_eq!(parse_osc11_response("rgb:0ffff/0ffff/0ffff"), Some(true));
    assert_eq!(parse_osc11_response("rgb:0ff/8000/ffff"), Some(false));
    assert_eq!(parse_osc11_response("rgb:f/00ff/00ff"), Some(true));
    assert_eq!(parse_osc11_response("rgb:ff/ff/f00"), Some(false));
}

#[test]
fn colours_stand_behind_the_first_mark() {
    assert_eq!(parse_osc11_response("rgrgb:ff/ff/ff"), Some(true));
    assert_eq!(parse_osc11_response("color rgb:00/00/00 rgb:ff/ff/ff"), Some(false));
}

#[test]
fn channels_are_up_to_16_bits_of_hex() {
    assert_eq!(parse_channel("1A2b"), Some((0x1a2b, 4)));
    assert_eq!(parse_channel("2b"), Some((0x2b, 2)));
    assert_eq!(parse_channel("f"), Some((0xf, 1)));
    assert_eq!(parse_channel("fff"), Some((0xfff, 3)));
    assert_eq!(parse_channel("00ffff\x1b"), Some((0xffff, 6)));
    assert_eq!(parse_channel("10000"), None);
    assert_eq!(parse_channel("+1"), None);
    assert_eq!(parse_channel(""), None);
    assert_eq!(parse_osc11_response("rgb:10000/0/0"), None);
    assert_eq!(parse_osc11_response("rgb:ff/ff"), None);
    assert_eq!(parse_osc11_response("rgb:ff//ff"), None);
    assert_eq!(parse_osc11_response("rgb:ff/ff/ff/00"), Some(true));
}

#[test]
fn replies_are_read_as_utf8() {
    assert_eq!(parse_osc11_reply(b"\x1b]11;rgb:ffff/ffff/ffff\x07"), Some(true));
    assert_eq!(parse_osc11_reply("\u{e9}rgb:0/0/0".as_bytes()), Some(false));
    assert_eq!(parse_osc11_reply(b"\xffrgb:ffff/ffff/ffff\x07"), None);
}

#[test]
fn replies_end_at_a_terminator_or_when_full() {
    assert!(reply_is_read(b"\x1b]11;rgb:0/0/0\x07"));
    assert!(reply_is_read(b"\x1b]11;rgb:0/0/0\x1b\\"));
    assert!(!reply_is_read(b"\x1b]11;rgb:0/0/0\x1b"));
    assert!(!reply_is_read(b"\\\x1b"));
    assert!(!reply_is_read(b""));
    assert!(!reply_is_read(&[b'0'; REPLY_CAPACITY - 1]));
    assert!(reply_is_read(&[b'0'; REPLY_CAPACITY]));
}

#[test]
fn the_reply_comes_before_the_foreground() {
    assert!(is_light_terminal(Some(true), Some("255;255;255")));
    assert!(!is_light_terminal(Some(false), Some("0;0;0")));
    assert!(is_light_terminal(None, Some("0;0;0")));
    assert!(is_light_terminal(None, Some("128;128;127")));
    assert!(!is_light_terminal(None, Some("128;128;128")));
    assert!(is_light_terminal(None, Some("x;1;300;+2;3")));
    assert!(!is_light_terminal(None, Some("1;2")));
    assert!(!is_light_terminal(None, None));
}

#[test]
fn plain_banner() {
    let lines = banner_lines("1.2.3", "2026-01-02 03:04", false, true);
    assert_eq!(lines.len(), BANNER_HEIGHT + 3);
    assert_eq!(
        lines[0],
        "████████╗███████╗███████╗███████╗███████╗██████╗  █████╗ ███████╗"
    );
    assert_eq!(
        lines[5],
        "   ╚═╝   ╚══════╝╚══════╝╚══════╝╚══════╝╚═╝  ╚═╝╚═╝  ╚═╝╚══════╝"
    );
    assert_eq!(lines[6], format!("{:>66}", "v1.2.3"));
    assert_eq!(lines[7], format!("{:^66}", "Shut Up and Hack - 2026-01-02 03:04"));
    assert_eq!(lines[8], "");
    assert_eq!(BANNER_WIDTH, 66);
}

#[test]
fn banner_fades_to_gray() {
    for light in [false, true] {
        let plain = banner_lines("9", "now", light, true);
        let lines = banner_lines("9", "now", light, false);
        for i in 0..6 {
            let t = i as f32 / 5.0;
            let gray = if light {
                (30.0 + 110.0 * t) as u8
            } else {
                (240.0 - 120.0 * t) as u8
            };
            assert_eq!(
                lines[i],
                format!("\x1b[38;2;{gray};{gray};{gray}m{}\x1b[0m", plain[i])
            );
        }
        let dim = if light { 100 } else { 140 };
        assert_eq!(lines[6], format!("\x1b[38;2;{dim};{dim};{dim}m{:>66}\x1b[0m", "v9"));
        let dim = if light { 80 } else { 160 };
        assert_eq!(
            lines[7],
            format!(
                "\x1b[1;3;38;2;{dim};{dim};{dim}m{:^66}\x1b[0m",
                "Shut Up and Hack - now"
            )
        );
    }
}

#[test]
fn long_versions_are_not_cut() {
    let version = "x".repeat(80);
    let lines = banner_lines(&version, "", false, true);
    assert_eq!(lines[6], format!("v{version}"));
}
