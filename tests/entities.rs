use firefly_types::serial::{FloatBits, Fuel};
use firefly_types::{
    Badge, BadgeProgress, BadgeValidationError, Badges, Board, BoardScores, BoardValidationError,
    Boards, DecodeError, Encode, EncodeError, FriendScore, Friends, Meta, Scores, Settings,
    ShortMeta, Stats,
};

fn badge<'a>(name: &'a str, descr: &'a str, xp: u8) -> Badge<'a> {
    Badge { position: 1, xp, hidden: 0, name, descr }
}

fn board(name: &str, min: i16, max: i16) -> Board<'_> {
    Board { position: 0, min, max, time: false, decimals: 0, name }
}

#[test]
fn meta_test_roundtrip() {
    let given = Meta {
        app_id: "some-app-id",
        app_name: "Some App Name",
        author_id: "some-author-id",
        author_name: "Some Author Name",
        launcher: false,
        sudo: false,
        version: 0,
    };
    let mut buf = vec![0; given.size()];
    let n = given.encode(&mut buf).unwrap();
    let actual = Meta::decode(&buf[..n]).unwrap();
    assert_eq!(given, actual);
}

#[test]
fn stats_test_roundtrip() {
    let given = Stats {
        minutes: [11, 12, 13, 14],
        longest_play: [21, 22, 23, 24],
        launches: [31, 32, 33, 34],
        installed_on: (2023, 12, 31),
        updated_on: (2024, 1, 17),
        launched_on: (2024, 2, 28),
        xp: 32,
        badges: Vec::new(),
    };
    let mut buf = vec![0; given.size()];
    let n = given.encode(&mut buf).unwrap();
    let actual = Stats::decode(&buf[..n]).unwrap();
    assert_eq!(given, actual);
}

#[test]
fn meta_bytes_are_exact() {
    let given = Meta {
        app_id: "ab",
        app_name: "A",
        author_id: "c",
        author_name: "",
        launcher: true,
        sudo: false,
        version: 300,
    };
    assert_eq!(given.size(), 12);
    let mut buf = vec![0xee; 14];
    let n = given.encode(&mut buf).unwrap();
    assert_eq!(n, 12);
    assert_eq!(&buf[..n], &[2, b'a', b'b', 1, b'A', 1, b'c', 0, 1, 0, 0xac, 0x02]);
    assert_eq!(&buf[n..], &[0xee, 0xee]);
}

#[test]
fn meta_buffer_one_short_fails() {
    let given = Meta {
        app_id: "some-app-id",
        app_name: "Some App Name",
        author_id: "some-author-id",
        author_name: "Some Author Name",
        launcher: true,
        sudo: true,
        version: 70000,
    };
    let size = given.size();
    let mut short = vec![0; size - 1];
    assert_eq!(given.encode(&mut short), Err(EncodeError::BufferTooSmall));
    let mut exact = vec![0; size];
    assert_eq!(given.encode(&mut exact), Ok(size));
    let mut empty: Vec<u8> = Vec::new();
    assert_eq!(given.encode(&mut empty), Err(EncodeError::BufferTooSmall));
}

#[test]
fn short_meta_roundtrip() {
    let given = ShortMeta { app_id: "app", author_id: "me" };
    let mut buf = vec![0; given.size()];
    let n = given.encode(&mut buf).unwrap();
    assert_eq!(&buf[..n], &[3, b'a', b'p', b'p', 2, b'm', b'e']);
    assert_eq!(ShortMeta::decode(&buf).unwrap(), given);
}

#[test]
fn badge_bytes_and_roundtrip() {
    let given = Badge { position: 300, xp: 200, hidden: 1, name: "Hi", descr: "" };
    assert_eq!(given.size(), 8);
    let mut buf = vec![0; 8];
    assert_eq!(given.encode(&mut buf), Ok(8));
    assert_eq!(buf, vec![0xac, 0x02, 200, 1, 2, b'H', b'i', 0]);
    assert_eq!(Badge::decode(&buf).unwrap(), given);
    let many = Badges::new(vec![given.clone(), badge("Second", "Earn it", 5)]);
    let mut buf = vec![0; many.size()];
    let n = many.encode(&mut buf).unwrap();
    assert_eq!(n, buf.len());
    assert_eq!(buf[0], 2);
    assert_eq!(Badges::decode(&buf).unwrap(), many);
}

#[test]
fn board_bytes_and_roundtrip() {
    let given = Board { position: 1, min: -1, max: 300, time: true, decimals: 2, name: "B" };
    let mut buf = vec![0; given.size()];
    given.encode(&mut buf).unwrap();
    assert_eq!(buf, vec![1, 1, 0xd8, 0x04, 1, 2, 1, b'B']);
    assert_eq!(Board::decode(&buf).unwrap(), given);
    let extremes = Board { position: u16::MAX, min: i16::MIN, max: i16::MAX, time: false, decimals: 0, name: "x" };
    let mut buf = vec![0; extremes.size()];
    extremes.encode(&mut buf).unwrap();
    assert_eq!(&buf[..9], &[0xff, 0xff, 0x03, 0xff, 0xff, 0x03, 0xfe, 0xff, 0x03]);
    let boards = Boards::new(vec![given, extremes]);
    let mut buf = vec![0; boards.size()];
    boards.encode(&mut buf).unwrap();
    assert_eq!(Boards::decode(&buf).unwrap(), boards);
}

#[test]
fn badge_validation() {
    assert_eq!(badge("Win", "", 200).validate(), Ok(()));
    assert_eq!(badge("Win", "", 201).validate(), Err(BadgeValidationError::TooMuchXp));
    assert_eq!(badge("", "", 1).validate(), Err(BadgeValidationError::EmptyName));
    let descr = "d".repeat(257);
    assert_eq!(badge("Win", &descr, 1).validate(), Err(BadgeValidationError::DescrTooLong));
    let descr = "d".repeat(256);
    assert_eq!(badge("Win", &descr, 1).validate(), Ok(()));
    let name = "n".repeat(65);
    assert_eq!(badge(&name, "", 1).validate(), Err(BadgeValidationError::NameTooLong));
    assert_eq!(BadgeValidationError::TooMuchXp.as_str(), "one badge cannot reward more than 200 XP");
    assert_eq!(BadgeValidationError::EmptyName.as_str(), "name must not be empty");
    assert_eq!(BadgeValidationError::NameTooLong.as_str(), "name is too long");
    assert_eq!(BadgeValidationError::DescrTooLong.as_str(), "descr is too long");
}

#[test]
fn board_validation() {
    assert_eq!(board("Top", 10, 5).validate(), Err(BoardValidationError::MinGtMax));
    assert_eq!(board("Top", 5, 5).validate(), Ok(()));
    assert_eq!(board("", 0, 5).validate(), Err(BoardValidationError::EmptyName));
    let name = "n".repeat(65);
    assert_eq!(board(&name, 0, 5).validate(), Err(BoardValidationError::NameTooLong));
    assert_eq!(BoardValidationError::MinGtMax.as_str(), "min must be less than or equal to max");
    assert_eq!(BoardValidationError::EmptyName.as_str(), "name must not be empty");
    assert_eq!(BoardValidationError::NameTooLong.as_str(), "name is too long");
}

#[test]
fn badge_progress_earned() {
    assert!(BadgeProgress { new: false, done: 3, goal: 3 }.earned());
    assert!(BadgeProgress { new: true, done: 4, goal: 3 }.earned());
    assert!(!BadgeProgress { new: false, done: 2, goal: 3 }.earned());
    let p = BadgeProgress { new: true, done: 2, goal: 300 };
    let mut buf = vec![0; p.size()];
    p.encode(&mut buf).unwrap();
    assert_eq!(buf, vec![1, 2, 0xac, 0x02]);
}

#[test]
fn stats_with_badges_roundtrip() {
    let given = Stats {
        minutes: [0, 1, 128, u32::MAX],
        longest_play: [0; 4],
        launches: [1, 2, 3, 4],
        installed_on: (2023, 12, 31),
        updated_on: (2024, 1, 17),
        launched_on: (2024, 2, 28),
        xp: 1000,
        badges: vec![
            BadgeProgress { new: true, done: 1, goal: 2 },
            BadgeProgress { new: false, done: 2, goal: 2 },
        ],
    };
    let mut buf = vec![0; given.size()];
    given.encode(&mut buf).unwrap();
    assert_eq!(&buf[..9], &[0, 1, 0x80, 0x01, 0xff, 0xff, 0xff, 0xff, 0x0f]);
    assert_eq!(Stats::decode(&buf).unwrap(), given);
}

#[test]
fn settings_default_values() {
    let s = Settings::default();
    assert_eq!(s.xp, 0);
    assert_eq!(s.badges, 0);
    assert_eq!(&s.lang, b"en");
    assert_eq!(s.name, "firefly-zero");
    assert_eq!(s.timezone, "Europe/Amsterdam");
    assert!(!s.rotate_screen);
    assert_eq!(s.screen_brightness, 255);
    assert_eq!(s.leds_brightness, 255);
    assert_eq!(s.speakers_volume, 64);
    assert_eq!(s.headphones_volume, 64);
    assert_eq!(s.font_size, 9);
    assert_eq!(s.theme, 0x0D6C00);
    assert_eq!(s.auto_lock, 5);
    assert!(!s.reduce_flashing && !s.telemetry && !s.gamepad_mode && !s.contrast && !s.easter_eggs);
    assert_eq!(s.extra_flags, 0);
}

#[test]
fn settings_roundtrip() {
    let mut given = Settings::default();
    given.telemetry = true;
    given.extra_flags = 0x8000_0001;
    let mut buf = vec![0; given.size()];
    let n = given.encode(&mut buf).unwrap();
    assert_eq!(n, buf.len());
    assert_eq!(&buf[..5], &[0, 0, b'e', b'n', 12]);
    assert_eq!(Settings::decode(&buf).unwrap(), given);
    let mut short = vec![0; n - 1];
    assert_eq!(given.encode(&mut short), Err(EncodeError::BufferTooSmall));
}

#[test]
fn scores_roundtrip() {
    let entry = FriendScore { index: 2, score: -5 };
    let given = Scores {
        boards: vec![BoardScores { me: [1, -1, 2, -2, 0, 0, 0, 0], friends: [entry; 8] }],
    };
    let mut buf = vec![0; given.size()];
    given.encode(&mut buf).unwrap();
    assert_eq!(&buf[..9], &[1, 2, 1, 4, 3, 0, 0, 0, 0]);
    assert_eq!(&buf[9..11], &[2, 9]);
    assert_eq!(buf.len(), 9 + 16);
    assert_eq!(Scores::decode(&buf).unwrap(), given);
}

#[test]
fn friends_roundtrip_and_append() {
    let mut friends = Friends { friends: vec!["alice", "bob"] };
    assert_eq!(friends.get(1), Some("bob"));
    assert_eq!(friends.get(2), None);
    assert_eq!(friends.push("carol"), Some(2));
    assert_eq!(friends.get(0), Some("alice"));
    assert_eq!(friends.get(1), Some("bob"));
    assert_eq!(friends.get(2), Some("carol"));
    let mut buf = vec![0; friends.size()];
    friends.encode(&mut buf).unwrap();
    assert_eq!(&buf[..8], &[3, 5, b'a', b'l', b'i', b'c', b'e', 3]);
    assert_eq!(Friends::decode(&buf).unwrap(), friends);
}

#[test]
fn appending_friend_keeps_score_indices() {
    let scores = Scores {
        boards: vec![BoardScores {
            me: [0; 8],
            friends: [FriendScore { index: 1, score: 10 }; 8],
        }],
    };
    let mut friends = Friends { friends: vec!["alice", "bob"] };
    let before: Vec<Option<&str>> =
        scores.boards[0].friends.iter().map(|f| friends.get(f.index)).collect();
    friends.push("carol");
    let after: Vec<Option<&str>> =
        scores.boards[0].friends.iter().map(|f| friends.get(f.index)).collect();
    assert_eq!(before, after);
    assert_eq!(after[0], Some("bob"));
}

#[test]
fn fuel_variance_is_four_le_bytes() {
    let fuel = Fuel { min: 1, max: 2, mean: 3, var: FloatBits(1.5f32.to_bits()), calls: 4 };
    let mut buf = vec![0; fuel.size()];
    fuel.encode(&mut buf).unwrap();
    assert_eq!(buf, vec![1, 2, 3, 0x00, 0x00, 0xc0, 0x3f, 4]);
    let back = Fuel::decode(&buf).unwrap();
    assert_eq!(f32::from_bits(back.var.0), 1.5);
    assert_eq!(Fuel::decode(&buf[..5]), Err(DecodeError::Truncated));
}

#[test]
fn decode_errors() {
    assert_eq!(Badge::decode(&[]), Err(DecodeError::Truncated));
    assert_eq!(Badge::decode(&[1, 2, 3, 5, b'a']), Err(DecodeError::Truncated));
    assert_eq!(Badge::decode(&[0x80, 0x80, 0x01]), Err(DecodeError::Truncated));
    assert_eq!(Badge::decode(&[0x80, 0x80, 0x80, 0x00]), Err(DecodeError::Malformed));
    assert_eq!(Badge::decode(&[0xff, 0xff, 0x04]), Err(DecodeError::Malformed));
    assert_eq!(Badge::decode(&[0x80]), Err(DecodeError::Truncated));
    assert_eq!(BadgeProgress::decode(&[2, 0, 0]), Err(DecodeError::Malformed));
    assert_eq!(ShortMeta::decode(&[1, 0xff, 0]), Err(DecodeError::Malformed));
    assert_eq!(
        BadgeProgress::decode(&[1, 0x81, 0x00, 3, 9]),
        Ok(BadgeProgress { new: true, done: 1, goal: 3 })
    );
}

#[test]
fn meta_sizes() {
    let given = Meta {
        app_id: "some-app-id",
        app_name: "Some App Name",
        author_id: "some-author-id",
        author_name: "Some Author Name",
        launcher: false,
        sudo: false,
        version: 0,
    };
    assert_eq!(given.size(), 61);
    let long = "x".repeat(200);
    let wide = Meta {
        app_id: "",
        app_name: &long,
        author_id: "",
        author_name: "",
        launcher: false,
        sudo: true,
        version: 0,
    };
    assert_eq!(wide.size(), 208);
    let mut buf = vec![0; 208];
    wide.encode(&mut buf).unwrap();
    assert_eq!(&buf[..4], &[0, 0xc8, 0x01, b'x']);
}

#[test]
fn meta_strict_prefixes_are_truncated() {
    let given = Meta {
        app_id: "a",
        app_name: "B",
        author_id: "c",
        author_name: "D",
        launcher: false,
        sudo: true,
        version: 300,
    };
    let mut buf = vec![0; given.size()];
    let n = given.encode(&mut buf).unwrap();
    assert_eq!(&buf[..n], &[1, b'a', 1, b'B', 1, b'c', 1, b'D', 0, 1, 0xac, 0x02]);
    for k in 0..n {
        assert_eq!(Meta::decode(&buf[..k]), Err(DecodeError::Truncated));
    }
    assert_eq!(Meta::decode(&buf[..n]).unwrap(), given);
}
