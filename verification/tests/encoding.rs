use i3_tmux_integration::command::{
    decimal_string, detach_command, kill_pane_command, pane_window_command, refresh_client_command,
    resize_pane_command, send_keys_command,
};
use i3_tmux_integration::decimal::{digits_to_u64, parse_u64, push_decimal};
use i3_tmux_integration::events::{keyboard_action, pane_input_command, pane_size_event, KeyboardAction, SizeEvent};
use i3_tmux_integration::hex::to_hex;
use i3_tmux_integration::pane::PendingOutput;
use i3_tmux_integration::text::{bytes_eq, find_byte_from, trim_bounds};
use i3_tmux_integration::token::{
    classify_token, pane_tokens, token_is_subwindow_input, token_is_subwindow_size, token_to_pane,
    TokenKind, FIRST_PANEID, MAIN_SIGFD, MAIN_STDIN, MAIN_STDOUT, SUBWINDOW_SOCKET,
};
use i3_tmux_integration::wire::{pane_id_message, read_pane_id, WinSize};

#[test]
fn hex_key_codes() {
    assert_eq!(to_hex(b"a\x1b\xff"), b"0x61 0x1b 0xff ".to_vec());
    assert_eq!(to_hex(b""), Vec::<u8>::new());
    let mut joined = to_hex(b"ls");
    joined.extend(to_hex(b"\n"));
    assert_eq!(joined, to_hex(b"ls\n"));
}

#[test]
fn tmux_commands() {
    assert_eq!(kill_pane_command(3), b"kill-pane -t 3\n".to_vec());
    assert_eq!(send_keys_command(12, b"ls\n"), b"send-keys -t 12 0x6c 0x73 0x0a \n".to_vec());
    assert_eq!(refresh_client_command(80, 24), b"refresh-client -C 80,24\n".to_vec());
    assert_eq!(resize_pane_command(80, 24, 5), b"resize-pane -x 80 -y 24 -t %5\n".to_vec());
    assert_eq!(detach_command(), b"detach\n".to_vec());
}

#[test]
fn pane_window_i3_command() {
    assert_eq!(
        pane_window_command("/usr/bin/tmux-integration-window", "/tmp/i3-tmux.X/server.sock", 7),
        "workspace tmp; exec RUST_BACKTRACE=1 i3-sensible-terminal --hold -e /usr/bin/tmux-integration-window /tmp/i3-tmux.X/server.sock 7"
    );
    assert_eq!(decimal_string(0), "0");
    assert_eq!(decimal_string(u64::MAX), "18446744073709551615");
}

#[test]
fn decimal_numbers() {
    assert_eq!(parse_u64(b"42"), Some(42));
    assert_eq!(parse_u64(b"+42"), Some(42));
    assert_eq!(parse_u64(b"007"), Some(7));
    assert_eq!(parse_u64(b""), None);
    assert_eq!(parse_u64(b"+"), None);
    assert_eq!(parse_u64(b"-1"), None);
    assert_eq!(parse_u64(b"1 "), None);
    assert_eq!(parse_u64(b"18446744073709551615"), Some(u64::MAX));
    assert_eq!(parse_u64(b"18446744073709551616"), None);
    assert_eq!(digits_to_u64(b"x123y", 1, 4), Some(123));
    let mut out = b"id=".to_vec();
    push_decimal(&mut out, 1234567890);
    assert_eq!(out, b"id=1234567890".to_vec());
    for n in [0u64, 9, 10, 99, 100, 65535, u64::MAX] {
        let mut d = Vec::new();
        push_decimal(&mut d, n);
        assert_eq!(parse_u64(&d), Some(n));
    }
}

#[test]
fn event_tokens() {
    assert_eq!(pane_tokens(0), (4, 5));
    assert_eq!(pane_tokens(3), (10, 11));
    assert_eq!(token_to_pane(10), 3);
    assert_eq!(token_to_pane(11), 3);
    assert!(token_is_subwindow_input(10) && !token_is_subwindow_size(10));
    assert!(token_is_subwindow_size(11) && !token_is_subwindow_input(11));
    assert!(!token_is_subwindow_input(2) && !token_is_subwindow_size(3));
    assert_eq!(classify_token(MAIN_STDIN), TokenKind::MainStdin);
    assert_eq!(classify_token(MAIN_STDOUT), TokenKind::MainStdout);
    assert_eq!(classify_token(MAIN_SIGFD), TokenKind::MainSigfd);
    assert_eq!(classify_token(SUBWINDOW_SOCKET), TokenKind::SubwindowSocket);
    assert_eq!(classify_token(FIRST_PANEID), TokenKind::SubwindowInput(0));
    assert_eq!(classify_token(11), TokenKind::SubwindowSize(3));
    for p in [0u64, 1, 7, 1000] {
        let (input, size) = pane_tokens(p);
        assert_eq!(classify_token(input), TokenKind::SubwindowInput(p as usize));
        assert_eq!(classify_token(size), TokenKind::SubwindowSize(p as usize));
    }
}

#[test]
fn keys_typed_in_the_main_window() {
    let buf = b"ab\x1bc";
    assert!(matches!(keyboard_action(true, buf, 2), KeyboardAction::Forward(v) if v == b"ab".to_vec()));
    assert!(matches!(keyboard_action(false, buf, 2), KeyboardAction::Detach));
    assert!(matches!(keyboard_action(false, b"abc", 3), KeyboardAction::Ignore));
}

#[test]
fn pane_window_events() {
    assert_eq!(pane_input_command(2, b"xyz", 0), b"kill-pane -t 2\n".to_vec());
    assert_eq!(pane_input_command(2, b"xyz", 1), b"send-keys -t 2 0x78 \n".to_vec());
    let size = WinSize { ws_row: 24, ws_col: 80, ws_xpixel: 640, ws_ypixel: 480 };
    let bytes = size.to_ne_bytes();
    assert!(matches!(pane_size_event(6, &bytes, 0), SizeEvent::Closed));
    match pane_size_event(6, &bytes, 8) {
        SizeEvent::Resize(refresh, resize) => {
            assert_eq!(refresh, b"refresh-client -C 80,24\n".to_vec());
            assert_eq!(resize, b"resize-pane -x 80 -y 24 -t %6\n".to_vec());
        }
        other => panic!("unexpected {:?}", other),
    }
}

#[test]
fn native_byte_order_messages() {
    for id in [0u64, 1, 0x0102030405060708, u64::MAX] {
        let msg = pane_id_message(id);
        assert_eq!(msg, id.to_ne_bytes().to_vec());
        assert_eq!(read_pane_id(&msg), Some(id));
    }
    let mut long = pane_id_message(77);
    long.extend_from_slice(&[9; 100]);
    assert_eq!(read_pane_id(&long), Some(77));
    assert_eq!(read_pane_id(&[1, 2, 3]), None);
    let size = WinSize { ws_row: 0x1234, ws_col: 80, ws_xpixel: 0, ws_ypixel: 0xffff };
    let bytes = size.to_ne_bytes();
    assert_eq!(&bytes[0..2], &0x1234u16.to_ne_bytes());
    assert_eq!(WinSize::from_ne_bytes(&bytes), size);
}

#[test]
fn pending_pane_output() {
    let mut p = PendingOutput::new();
    assert!(p.is_empty());
    assert_eq!(p.write(b"first"), 5);
    assert_eq!(p.write(b""), 0);
    assert_eq!(p.write(b"second"), 6);
    assert!(!p.is_empty());
    assert_eq!(p.take(), vec![b"first".to_vec(), vec![], b"second".to_vec()]);
    assert!(p.is_empty());
    assert_eq!(p.take(), Vec::<Vec<u8>>::new());
}

#[test]
fn text_helpers() {
    assert_eq!(trim_bounds(b"  %exit\t"), (2, 7));
    assert_eq!(trim_bounds("\u{3000}x\u{a0}".as_bytes()), (3, 4));
    assert_eq!(trim_bounds(" \u{2029} ".as_bytes()), (5, 5));
    assert_eq!(trim_bounds(b"abc"), (0, 3));
    assert_eq!(find_byte_from(b"a b c", 2, b' '), 3);
    assert_eq!(find_byte_from(b"abc", 0, b' '), 3);
    assert!(bytes_eq(b"%exit", b"%exit") && !bytes_eq(b"%exit", b"%exi"));
}

#[test]
fn hex_key_codes_read_back() {
    let bytes: Vec<u8> = (0u8..=255).collect();
    let text = String::from_utf8(to_hex(&bytes)).unwrap();
    let groups: Vec<&str> = text.split_terminator(' ').collect();
    assert_eq!(groups.len(), 256);
    assert!(groups.iter().all(|g| g.starts_with("0x") && g.len() == 4));
    let back: Vec<u8> = groups.iter().map(|g| u8::from_str_radix(&g[2..], 16).unwrap()).collect();
    assert_eq!(back, bytes);
}

#[test]
fn pending_chunks_keep_call_order() {
    let mut p = PendingOutput::new();
    let chunks: Vec<Vec<u8>> = vec![b"one".to_vec(), b"two".to_vec(), b"".to_vec(), b"three".to_vec()];
    for c in &chunks {
        assert_eq!(p.write(c), c.len());
    }
    let taken = p.take();
    assert_eq!(taken, chunks);
    assert_eq!(taken.concat(), b"onetwothree".to_vec());
}

#[test]
fn terminal_size_fields_share_one_byte_order() {
    let bytes = [1u8, 0, 2, 0, 3, 0, 4, 0];
    let size = WinSize::from_ne_bytes(&bytes);
    let little = WinSize { ws_row: 1, ws_col: 2, ws_xpixel: 3, ws_ypixel: 4 };
    let big = WinSize { ws_row: 256, ws_col: 512, ws_xpixel: 768, ws_ypixel: 1024 };
    assert!(size == little || size == big);
    assert_eq!(size.ws_row, u16::from_ne_bytes([1, 0]));
    let out = little.to_ne_bytes();
    assert_eq!(out.len(), 8);
    assert_eq!(&out[0..2], &1u16.to_ne_bytes());
    assert_eq!(&out[6..8], &4u16.to_ne_bytes());
    assert_eq!(WinSize::from_ne_bytes(&out), little);
}
