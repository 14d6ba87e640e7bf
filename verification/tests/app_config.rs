use jvm_ext_dumper::app::{class_index, config_from};
use jvm_ext_dumper::hotspot::dictionary::DiscoveredClass;
use jvm_ext_dumper::platform::{
    check_handle, check_owner, ensure_elevated, wide_c_string, Elevation, MemoryRegion, PageRange,
    RegionWalk,
};

#[test]
fn config_takes_a_pid_and_a_directory() {
    let config = config_from("4242", "out/here").unwrap();
    assert_eq!(config.pid, 4242);
    assert_eq!(config.output, "out/here");
    let config = config_from("+7", "").unwrap();
    assert_eq!(config.pid, 7);
    assert_eq!(config.output, "dump");
    assert_eq!(config_from("4294967295", "").unwrap().pid, u32::MAX);
}

#[test]
fn config_refuses_what_the_standard_parser_refuses() {
    for text in ["", "+", "-1", "12a", "4294967296", "99999999999x", "0x10", " 1", "\u{664}"] {
        let expected = format!(
            "PID must be an unsigned integer: {}",
            text.parse::<u32>().unwrap_err()
        );
        assert_eq!(config_from(text, "").unwrap_err().text, expected);
    }
}

#[test]
fn index_has_a_line_for_each_class() {
    let classes = vec![
        DiscoveredClass {
            klass: 0x7fff_0001,
            internal_name: "a/B".to_owned(),
        },
        DiscoveredClass {
            klass: u64::MAX,
            internal_name: "c/\u{e9}".to_owned(),
        },
    ];
    assert_eq!(
        class_index(&classes),
        "0x000000007fff0001 a/B\n0xffffffffffffffff c/\u{e9}\n"
    );
    assert_eq!(class_index(&Vec::new()), "");
}

#[test]
fn only_an_elevated_windows_process_may_go_on() {
    assert!(ensure_elevated(Elevation::Elevated).is_ok());
    assert_eq!(
        ensure_elevated(Elevation::NotWindows).unwrap_err().text,
        "jvm_ext_dumper runs only on Windows"
    );
    assert_eq!(
        ensure_elevated(Elevation::Limited).unwrap_err().text,
        "administrator privileges are required; start CMD or PowerShell as Administrator"
    );
}

#[test]
fn handles_are_checked() {
    assert!(check_handle(8, u64::MAX).is_ok());
    assert_eq!(
        check_handle(0, u64::MAX).unwrap_err().text,
        "supplied HANDLE is NULL or INVALID_HANDLE_VALUE"
    );
    assert!(check_handle(u64::MAX, u64::MAX).is_err());
    assert!(check_owner(5, 5).is_ok());
    assert_eq!(
        check_owner(12, 5).unwrap_err().text,
        "supplied HANDLE belongs to PID 12, expected PID 5"
    );
}

fn range(base: usize, size: usize, state: u32, protect: u32) -> PageRange {
    PageRange {
        base,
        size,
        state,
        protect,
    }
}

#[test]
fn region_walk_keeps_committed_readable_ranges_and_ends() {
    let mut walk = RegionWalk::new();
    assert!(walk.step(&range(0, 0x1000, 0x1_0000, 1)));
    assert!(walk.step(&range(0x1000, 0x2000, 0x1000, 4)));
    assert!(walk.step(&range(0x3000, 0x1000, 0x1000, 0x104)));
    assert!(walk.step(&range(0x4000, 0x1000, 0x1000, 1)));
    assert!(walk.step(&range(0x5000, 0x1000, 0x2000, 4)));
    assert_eq!(walk.address, 0x6000);
    assert!(!walk.step(&range(0x5000, 0x1000, 0x1000, 2)));
    assert_eq!(walk.address, 0x6000);
    assert!(!walk.step(&range(0x6000, 0, 0x1000, 2)));
    assert!(!walk.step(&range(usize::MAX, 0x1000, 0x1000, 2)));
    assert_eq!(
        walk.regions,
        [
            MemoryRegion {
                base: 0x1000,
                size: 0x2000
            },
            MemoryRegion {
                base: 0x5000,
                size: 0x1000
            },
            MemoryRegion {
                base: usize::MAX as u64,
                size: 0x1000
            },
        ]
    );
}

#[test]
fn wide_strings_end_at_a_zero_and_replace_lone_surrogates() {
    let mut units: Vec<u16> = "jvm.dll".encode_utf16().collect();
    assert_eq!(wide_c_string(&units), "jvm.dll");
    units.push(0);
    units.push(0x41);
    assert_eq!(wide_c_string(&units), "jvm.dll");
    let pair: Vec<u16> = "a\u{1f388}z".encode_utf16().collect();
    assert_eq!(wide_c_string(&pair), "a\u{1f388}z");
    assert_eq!(wide_c_string(&[0xd800, 0x41]), "\u{fffd}A");
    assert_eq!(wide_c_string(&[0xdc00, 0xd800]), "\u{fffd}\u{fffd}");
    assert_eq!(wide_c_string(&[0xd800, 0xd83c, 0xdf88]), "\u{fffd}\u{1f388}");
    assert_eq!(wide_c_string(&[]), "");
}
