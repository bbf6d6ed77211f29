use fpgahog::command::{needs_root, root_refusal, ClaimCommand, Commands};
use fpgahog::text::{
    after_prefix, begins_with, cut_text, decimal_text, has_part, joined, joined_path, lines_of,
    not_after, padded_text, parse_u32, prefixes_removed, recoded_text, replaced_all, replaced_first,
    same_ignoring_ascii_case, same_text, signed_decimal_text, sorted_texts, space, trimmed,
    words_of, zero_padded_text, Cut,
};

const SAMPLES: [&str; 12] = [
    "",
    " ",
    "a",
    " a b  c ",
    "a\r\nb\n\nc\r",
    "\n",
    "x\ny\n",
    "ä\u{3000}ö\u{2003}",
    "0x0x10ee",
    "a,b,,c,",
    "\\040\\040x",
    "Übung MIT",
];

#[test]
fn white_space_is_what_unicode_says() {
    for code in 0..0x110000u32 {
        if let Some(c) = char::from_u32(code) {
            assert_eq!(space(c), c.is_whitespace(), "{:x}", code);
        }
    }
}

#[test]
fn cutting_agrees_with_std() {
    for text in SAMPLES {
        assert_eq!(words_of(text), text.split_whitespace().collect::<Vec<&str>>());
        assert_eq!(lines_of(text), text.lines().collect::<Vec<&str>>());
        assert_eq!(cut_text(text, Cut::At(',')), text.split(',').collect::<Vec<&str>>());
        assert_eq!(trimmed(text), text.trim());
    }
}

#[test]
fn searching_and_replacing_agree_with_std() {
    for text in SAMPLES {
        for part in ["a", "0x", "\\040", "b", "aa", "\n"] {
            assert_eq!(has_part(text, part), text.contains(part));
            assert_eq!(begins_with(text, part), text.starts_with(part));
            assert_eq!(after_prefix(text, part).as_deref(), text.strip_prefix(part));
            assert_eq!(replaced_all(text, part, "%"), text.replace(part, "%"));
            assert_eq!(replaced_first(text, part, "%%"), text.replacen(part, "%%", 1));
            assert_eq!(prefixes_removed(text, part), text.trim_start_matches(part));
        }
        assert!(has_part(text, ""));
    }
    assert_eq!(recoded_text("a\0b\0\0", '\0', ' '), "a b");
    assert_eq!(recoded_text("\0", '\0', ' '), "");
}

#[test]
fn numbers_agree_with_std() {
    for n in [0u64, 7, 10, 99, 100, 18_446_744_073_709_551_615] {
        assert_eq!(decimal_text(n), n.to_string());
        assert_eq!(zero_padded_text(n, 3), format!("{:03}", n));
    }
    for n in [0i64, -1, 42, -9_223_372_036_854_775_808] {
        assert_eq!(signed_decimal_text(n), n.to_string());
    }
    for text in ["", "+", "-1", "0", "+7", "4294967295", "4294967296", "00012", "1 ", "99999999999999999999", "1a", "++1"] {
        assert_eq!(parse_u32(text), text.parse::<u32>().ok(), "{}", text);
    }
}

#[test]
fn comparing_agrees_with_std() {
    for a in SAMPLES {
        for b in SAMPLES {
            assert_eq!(same_text(a, b), a == b);
            assert_eq!(not_after(a, b), a <= b);
            assert_eq!(same_ignoring_ascii_case(a, b), a.eq_ignore_ascii_case(b));
        }
    }
    assert!(same_ignoring_ascii_case("HoSt", "host"));
    assert!(!same_ignoring_ascii_case("Ä", "ä"));
    let mut items: Vec<String> = SAMPLES.iter().map(|s| s.to_string()).collect();
    let sorted = sorted_texts(&items);
    items.sort();
    assert_eq!(sorted, items);
}

#[test]
fn padding_and_joining_agree_with_std() {
    for text in SAMPLES {
        assert_eq!(padded_text(text, 5), format!("{:<5}", text));
        let parts = vec![text.to_string(), "x".to_string()];
        assert_eq!(joined(&parts, ", "), parts.join(", "));
        assert_eq!(joined(&parts[..1], ", "), text);
    }
    assert_eq!(joined(&[], ", "), "");
    for (dir, name) in [("/dev", "a"), ("/dev/", "a"), ("", "a"), ("/", "bus/usb")] {
        assert_eq!(joined_path(dir, name), std::path::Path::new(dir).join(name).to_string_lossy());
    }
}

fn claim() -> Commands {
    Commands::Claim {
        claim: ClaimCommand {
            args: vec!["u280".into(), "4h".into()],
            soft_timeout: None,
            exclusive: false,
            shared: false,
            force: false,
        },
    }
}

#[test]
fn commands_that_change_the_host_need_root() {
    for command in [
        claim(),
        Commands::Release { resources: vec![] },
        Commands::Hog { users: vec![], force: false },
        Commands::Maintenance,
        Commands::Discover { write: true },
    ] {
        assert!(needs_root(&command), "{:?} should need root", command);
    }
    assert!(needs_root(&Commands::Disable) && needs_root(&Commands::Enable));
    assert_eq!(
        root_refusal("fpgahog", "claim"),
        "`fpgahog claim` changes the host, so it must run as root: sudo fpgahog claim ..."
    );
}

#[test]
fn looking_does_not_need_root() {
    for command in [
        Commands::Status { verbose: false },
        Commands::List,
        Commands::Discover { write: false },
        Commands::Users,
        Commands::Check { resources: "u280".into() },
    ] {
        assert!(!needs_root(&command), "{:?} should not need root", command);
    }
    assert!(!needs_root(&Commands::Post { message: vec![] }));
}
