use rbasefind::{Arguments, Config};

fn arguments() -> Arguments {
    Arguments {
        big_endian: false,
        input: String::from("image.bin"),
        max_matches: None,
        min_str_len: None,
        offset: None,
        threads: None,
        opencl: false,
    }
}

fn with_offset(offset: &str) -> Arguments {
    let mut given = arguments();
    given.offset = Some(String::from(offset));
    given
}

#[test]
fn defaults() {
    let config = Config::new(arguments()).unwrap_or_else(|e| panic!("{}", e));
    assert_eq!(config.max_matches, 10);
    assert_eq!(config.min_str_len, 10);
    assert_eq!(config.offset, 0x1000);
    assert_eq!(config.threads, num_cpus::get());
    assert_eq!(config.filename, "image.bin");
    assert!(!config.big_endian);
    assert!(!config.opencl);
}

#[test]
fn options_are_taken_over() {
    let given = Arguments {
        big_endian: true,
        input: String::from("flash"),
        max_matches: Some(String::from("3")),
        min_str_len: Some(String::from("+0012")),
        offset: Some(String::from("0x8000000")),
        threads: Some(String::from("7")),
        opencl: true,
    };
    let config = Config::new(given).unwrap_or_else(|e| panic!("{}", e));
    assert!(config.big_endian);
    assert_eq!(config.filename, "flash");
    assert_eq!(config.max_matches, 3);
    assert_eq!(config.min_str_len, 12);
    assert_eq!(config.offset, 0x8000000);
    assert_eq!(config.threads, 7);
    assert!(config.opencl);
}

#[test]
fn numbers_that_are_none_are_refused() {
    for text in ["", "+", "-1", "1 ", "ten", "0x10", "1_0", "99999999999999999999999"] {
        let mut given = arguments();
        given.max_matches = Some(String::from(text));
        assert_eq!(Config::new(given).err(), Some("failed to parse maxmatches"));
        let mut given = arguments();
        given.min_str_len = Some(String::from(text));
        assert_eq!(Config::new(given).err(), Some("failed to parse minstrlen"));
        let mut given = arguments();
        given.threads = Some(String::from(text));
        assert_eq!(Config::new(given).err(), Some("failed to parse threads"));
    }
}

#[test]
fn offset_texts() {
    let refused = [
        ("", "offset format is invalid"),
        ("0x", "offset format is invalid"),
        ("1000", "ensure offset parameter begins with 0x."),
        ("0X1000", "ensure offset parameter begins with 0x."),
        ("\u{e9}1", "ensure offset parameter begins with 0x."),
        ("0xg", "failed to parse offset"),
        ("0x\u{20ac}", "failed to parse offset"),
        ("0x100000000", "failed to parse offset"),
        ("0x0", "Offset is not a power of 2"),
        ("0x1001", "Offset is not a power of 2"),
    ];
    for (text, message) in refused {
        assert_eq!(Config::new(with_offset(text)).err(), Some(message));
    }
    let accepted = [("0x1", 1u32), ("0x+10", 0x10), ("0x00080000000", 0x8000_0000)];
    for (text, offset) in accepted {
        assert_eq!(Config::new(with_offset(text)).ok().map(|c| c.offset), Some(offset));
    }
}

#[test]
fn first_wrong_option_is_reported() {
    let mut given = with_offset("1000");
    given.threads = Some(String::from("x"));
    assert_eq!(Config::new(given).err(), Some("ensure offset parameter begins with 0x."));
    let mut given = with_offset("1000");
    given.min_str_len = Some(String::from("x"));
    assert_eq!(Config::new(given).err(), Some("failed to parse minstrlen"));
}

#[test]
fn threads_default_to_the_cpus_given() {
    let config = Config::from_arguments(arguments()).unwrap_or_else(|e| panic!("{}", e));
    assert_eq!(config.threads, 0);
    assert_eq!(config.with_default_threads(5).threads, 5);
    let mut given = arguments();
    given.threads = Some(String::from("2"));
    let config = Config::from_arguments(given).unwrap_or_else(|e| panic!("{}", e));
    assert_eq!(config.with_default_threads(5).threads, 2);
}
