use kawa_broadcast::buffer::{Buffer, BufferData};
use kawa_broadcast::text;
use kawa_broadcast::text::{ends_with, format_decimal, join_lines, same, starts_with};

#[test]
fn numbers_in_decimal() {
    assert_eq!(format_decimal(0), "0");
    assert_eq!(format_decimal(9), "9");
    assert_eq!(format_decimal(10), "10");
    assert_eq!(format_decimal(192000), "192000");
    assert_eq!(format_decimal(u64::MAX), "18446744073709551615");
}

#[test]
fn starts_and_ends() {
    assert!(starts_with("mpv 0.32", "mpv"));
    assert!(!starts_with("mp", "mpv"));
    assert!(!starts_with("xmpv", "mpv"));
    assert!(starts_with("abc", ""));
    assert!(ends_with("/radio/stream.ogg", "stream.ogg"));
    assert!(!ends_with("/radio/stream.mp3", "stream.ogg"));
    assert!(!ends_with("ogg", "stream.ogg"));
    assert!(ends_with("b\u{e9}", "\u{e9}"));
    assert!(same("websocket", "websocket"));
    assert!(!same("WebSocket", "websocket"));
    assert!(!same("websocket", "websocke"));
}

#[test]
fn lines_are_joined_by_line_ends() {
    assert_eq!(join_lines(&vec![]), "");
    assert_eq!(join_lines(&vec!["a".to_string()]), "a");
    let lines = vec![text::line("a: ", "b"), text::line("", "c"), text::line("d", "")];
    assert_eq!(join_lines(&lines), "a: b\r\nc\r\nd");
}

#[test]
fn kinds_of_data() {
    let h = BufferData::Header(vec![1]);
    let f = BufferData::Frame { data: vec![2, 3], pts: 0 };
    let t = BufferData::Trailer(vec![4]);
    let i = BufferData::InlineData(vec![5]);
    assert_eq!((h.is_data(), h.is_header(), h.is_inline()), (false, true, false));
    assert_eq!((f.is_data(), f.is_header(), f.is_inline()), (true, false, false));
    assert_eq!((t.is_data(), t.is_header(), t.is_inline()), (false, false, false));
    assert_eq!((i.is_data(), i.is_header(), i.is_inline()), (false, false, true));
    assert_eq!(h.frame(), [1]);
    assert_eq!(f.frame(), [2, 3]);
    assert_eq!(t.frame(), [4]);
    assert_eq!(i.frame(), [5]);
}

#[test]
fn buffer_gives_back_its_parts() {
    let b = Buffer::new(3, BufferData::Trailer(vec![9]));
    let (mount, data) = b.clone().into_parts();
    assert_eq!(mount, 3);
    assert!(matches!(&data, BufferData::Trailer(d) if d == &vec![9]));
    let (mount, data) = b.into_parts();
    assert_eq!((mount, data.frame().to_vec()), (3, vec![9]));
}

#[test]
fn packets_of_websocket_clients() {
    assert_eq!(
        BufferData::Header(vec![7, 8]).packet(),
        [1, 0, 0, 0, 0, 0, 0, 0, 2, 7, 8]
    );
    assert_eq!(BufferData::Trailer(vec![7]).packet(), [3, 0, 0, 0, 0, 0, 0, 0, 1, 7]);
    assert_eq!(BufferData::InlineData(vec![1]).packet(), [255, 0, 0, 0, 0, 0, 0, 0, 1, 1]);
    assert_eq!(
        BufferData::Frame { data: vec![7], pts: std::f64::consts::PI.to_bits() }.packet(),
        [2, 0, 0, 0, 0, 0, 0, 0, 9, 0x40, 0x09, 0x21, 0xfb, 0x54, 0x44, 0x2d, 0x18, 7]
    );
    let long = BufferData::Header(vec![0; 0x1_0203]).packet();
    assert_eq!(long[..9], [1, 0, 0, 0, 0, 0, 1, 2, 3]);
    assert_eq!(long.len(), 9 + 0x1_0203);
}

#[test]
fn packets_follow_each_other() {
    let mut stream = BufferData::Header(vec![1, 2, 3]).packet();
    stream.extend(BufferData::Frame { data: vec![4], pts: 5 }.packet());
    let mut kinds = Vec::new();
    let mut rest = &stream[..];
    while !rest.is_empty() {
        let mut len = [0; 8];
        len.copy_from_slice(&rest[1..9]);
        let len = u64::from_be_bytes(len) as usize;
        kinds.push((rest[0], len));
        rest = &rest[9 + len..];
    }
    assert_eq!(kinds, [(1, 3), (2, 9)]);
}
