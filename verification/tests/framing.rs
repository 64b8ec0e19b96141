use flowgger::config::{Config, ConfigError, ConfigValue};
use flowgger::splitter::{
    split_capnp_frames, split_delim_frames, split_frames, split_syslen_frames, Framing,
};
use flowgger::tcpco_input::TcpCoInput;

#[test]
fn test_framing_from_name() {
    assert_eq!(Framing::from_name("line"), Some(Framing::Line));
    assert_eq!(Framing::from_name("nul"), Some(Framing::Nul));
    assert_eq!(Framing::from_name("syslen"), Some(Framing::Syslen));
    assert_eq!(Framing::from_name("capnp"), Some(Framing::Capnp));
    assert_eq!(Framing::from_name("udp"), None);
    assert_eq!(Framing::from_name(""), None);
}

#[test]
fn test_line_frames_with_truncated_tail() {
    // Two complete frames, then a truncated third with no terminator:
    // exactly two frames come out, the tail is discarded cleanly.
    let data = b"first\nsecond\ntrunc";
    let frames = split_delim_frames(data, b'\n');
    assert_eq!(frames.len(), 2);
    assert_eq!(frames[0], b"first");
    assert_eq!(frames[1], b"second");
}

#[test]
fn test_nul_frames_with_truncated_tail() {
    let data = b"one\0two\0rest";
    let frames = split_delim_frames(data, 0);
    assert_eq!(frames.len(), 2);
    assert_eq!(frames[0], b"one");
    assert_eq!(frames[1], b"two");
}

#[test]
fn test_delim_frames_empty_and_exact() {
    let frames = split_delim_frames(b"", b'\n');
    assert_eq!(frames.len(), 0);
    // An empty frame between two delimiters is a frame.
    let frames = split_delim_frames(b"a\n\nb\n", b'\n');
    assert_eq!(frames.len(), 3);
    assert_eq!(frames[0], b"a");
    assert_eq!(frames[1], b"");
    assert_eq!(frames[2], b"b");
}

#[test]
fn test_syslen_frames_with_truncated_tail() {
    // Two well-formed octet-counted frames, then a truncated third:
    // exactly two frames, clean end.
    let data = b"5 hello3 abc10 tooshort";
    let frames = split_syslen_frames(data);
    assert_eq!(frames.len(), 2);
    assert_eq!(frames[0], b"hello");
    assert_eq!(frames[1], b"abc");
}

#[test]
fn test_syslen_frames_malformed_prefix_stops() {
    // A frame, then garbage instead of a length: the garbage and
    // everything after it is dropped.
    let data = b"2 okx payload";
    let frames = split_syslen_frames(data);
    assert_eq!(frames.len(), 1);
    assert_eq!(frames[0], b"ok");
    // A missing separator likewise stops the parse.
    let frames = split_syslen_frames(b"3abc");
    assert_eq!(frames.len(), 0);
    // An empty payload is a frame.
    let frames = split_syslen_frames(b"0 2 hi");
    assert_eq!(frames.len(), 2);
    assert_eq!(frames[0], b"");
    assert_eq!(frames[1], b"hi");
}

fn capnp_single_segment_message(words: &[u64]) -> Vec<u8> {
    // Header: segment count - 1 (zero), one segment size in words,
    // then the segment data; one segment keeps the header unpadded.
    let mut msg = Vec::new();
    msg.extend_from_slice(&0u32.to_le_bytes());
    msg.extend_from_slice(&(words.len() as u32).to_le_bytes());
    for w in words {
        msg.extend_from_slice(&w.to_le_bytes());
    }
    msg
}

#[test]
fn test_capnp_frames_with_truncated_tail() {
    let m1 = capnp_single_segment_message(&[7, 9]);
    let m2 = capnp_single_segment_message(&[1]);
    let mut data = Vec::new();
    data.extend_from_slice(&m1);
    data.extend_from_slice(&m2);
    // A truncated third message: a complete header that promises more
    // data than the stream holds.
    data.extend_from_slice(&0u32.to_le_bytes());
    data.extend_from_slice(&5u32.to_le_bytes());
    data.extend_from_slice(&[1, 2, 3]);
    let frames = split_capnp_frames(&data);
    assert_eq!(frames.len(), 2);
    assert_eq!(frames[0], m1);
    assert_eq!(frames[1], m2);
}

#[test]
fn test_split_frames_dispatch() {
    let frames = split_frames(Framing::Line, b"a\nb\n");
    assert_eq!(frames.len(), 2);
    let frames = split_frames(Framing::Nul, b"a\0");
    assert_eq!(frames.len(), 1);
    let frames = split_frames(Framing::Syslen, b"1 x");
    assert_eq!(frames.len(), 1);
    assert_eq!(frames[0], b"x");
    let msg = capnp_single_segment_message(&[4]);
    let frames = split_frames(Framing::Capnp, &msg);
    assert_eq!(frames.len(), 1);
    assert_eq!(frames[0], msg);
}

#[test]
fn test_tcp_input_defaults() {
    let config = Config { entries: vec![] };
    let input = TcpCoInput::new(&config).unwrap();
    assert_eq!(input.listen, "0.0.0.0:514");
    assert_eq!(input.tcp_config.framing, Framing::Line);
    assert_eq!(input.tcp_config.threads, 1);
    assert_eq!(input.tcp_config.timeout, None);
}

#[test]
fn test_tcp_input_configured() {
    let config = Config {
        entries: vec![
            (
                "input.listen".to_string(),
                ConfigValue::Str("127.0.0.1:6514".to_string()),
            ),
            (
                "input.framing".to_string(),
                ConfigValue::Str("syslen".to_string()),
            ),
            ("input.threads".to_string(), ConfigValue::Int(4)),
            ("input.timeout".to_string(), ConfigValue::Int(3600)),
        ],
    };
    let input = TcpCoInput::new(&config).unwrap();
    assert_eq!(input.listen, "127.0.0.1:6514");
    assert_eq!(input.tcp_config.framing, Framing::Syslen);
    assert_eq!(input.tcp_config.threads, 4);
    assert_eq!(input.tcp_config.timeout, Some(3600));
}

#[test]
fn test_tcp_input_bad_framing() {
    let config = Config {
        entries: vec![(
            "input.framing".to_string(),
            ConfigValue::Str("frame-maybe".to_string()),
        )],
    };
    assert!(matches!(
        TcpCoInput::new(&config),
        Err(ConfigError::UnsupportedFraming)
    ));
}

#[test]
fn test_tcp_input_bad_threads() {
    let config = Config {
        entries: vec![("input.threads".to_string(), ConfigValue::Int(0))],
    };
    assert!(matches!(
        TcpCoInput::new(&config),
        Err(ConfigError::ThreadsNotPositive)
    ));
}

#[test]
fn test_tcp_input_bad_listen() {
    let config = Config {
        entries: vec![("input.listen".to_string(), ConfigValue::Int(514))],
    };
    assert!(matches!(
        TcpCoInput::new(&config),
        Err(ConfigError::ListenNotString)
    ));
}

#[test]
fn test_tcp_input_bad_timeout() {
    let config = Config {
        entries: vec![("input.timeout".to_string(), ConfigValue::Int(-1))],
    };
    assert!(matches!(
        TcpCoInput::new(&config),
        Err(ConfigError::TimeoutNotInteger)
    ));
}
