use memscan::ScanError;
use memscan::codec::{encode_u32_le, word_from_le};
use memscan::fallback;
use memscan::memory::{get_memory_regions, parse_maps_line, write_outcome, MemoryRegion};
use memscan::process::{attach, Process};

#[test]
fn test_process_display() {
    let process = Process::new(1234, "test.exe".to_string());
    assert_eq!(process.display_string(), "test.exe (PID: 1234)");
}

#[test]
fn attach_absent_name_is_not_found() {
    let processes = fallback::list_processes().unwrap();
    assert!(matches!(
        attach(&processes, "nonexistent-name"),
        Err(ScanError::NotFound)
    ));
    // a partial match is never a match
    assert!(matches!(attach(&processes, "game"), Err(ScanError::NotFound)));
    assert!(matches!(attach(&processes, "game.exe2"), Err(ScanError::NotFound)));
}

#[test]
fn attach_finds_first_exact_match() {
    let mut processes = fallback::list_processes().unwrap();
    let found = attach(&processes, "browser.exe").unwrap();
    assert_eq!(found.id, 5678);
    assert_eq!(found.name, "browser.exe");
    // two entries with one name: the first wins
    processes.push(Process::new(9999, "browser.exe".to_string()));
    let again = attach(&processes, "browser.exe").unwrap();
    assert_eq!(again.id, 5678);
}

#[test]
fn maps_line_grammar() {
    assert_eq!(
        parse_maps_line("00400000-00452000 r-xp 00000000 08:02 173521 /usr/bin/dbus-daemon"),
        Some(MemoryRegion {
            start: 0x400000,
            size: 0x52000,
        })
    );
    // no read permission: excluded
    assert_eq!(
        parse_maps_line("00400000-00452000 ---p 00000000 08:02 173521"),
        None
    );
    // empty span: excluded
    assert_eq!(parse_maps_line("00400000-00400000 r--p 0 0 0"), None);
    // end below start: excluded, not an underflow
    assert_eq!(parse_maps_line("00452000-00400000 r--p 0 0 0"), None);
    // malformed lines yield nothing
    assert_eq!(parse_maps_line(""), None);
    assert_eq!(parse_maps_line("garbage"), None);
    assert_eq!(parse_maps_line("00400000 r--p"), None);
    assert_eq!(parse_maps_line("0040zz00-00452000 r--p"), None);
    // a range field alone, with no permission field, is incomplete
    assert_eq!(parse_maps_line("00400000-00452000"), None);
    assert_eq!(parse_maps_line("00400000-00452000   "), None);
}

#[test]
fn maps_regions_keep_line_order_and_skip_bad_lines() {
    let lines: Vec<String> = vec![
        "00400000-00452000 r-xp 0 0 0".to_string(),
        "garbage".to_string(),
        "7f0000000000-7f0000001000 rw-p 0 0 0".to_string(),
        "00600000-00601000 ---p 0 0 0".to_string(),
    ];
    let regions = get_memory_regions(&lines);
    assert_eq!(regions.len(), 2);
    assert_eq!(regions[0], MemoryRegion { start: 0x400000, size: 0x52000 });
    assert_eq!(
        regions[1],
        MemoryRegion {
            start: 0x7f00_0000_0000,
            size: 0x1000,
        }
    );
}

#[test]
fn maps_line_accepts_tab_separated_fields() {
    assert_eq!(
        parse_maps_line("00400000-00452000\tr-xp\t0"),
        Some(MemoryRegion {
            start: 0x400000,
            size: 0x52000,
        })
    );
}

#[test]
fn attach_on_empty_list_is_not_found() {
    let processes: Vec<Process> = Vec::new();
    assert!(matches!(attach(&processes, "anything"), Err(ScanError::NotFound)));
}

#[test]
fn display_string_renders_small_ids() {
    let process = Process::new(0, "p".to_string());
    assert_eq!(process.display_string(), "p (PID: 0)");
}

#[test]
fn writes_are_all_or_nothing() {
    assert!(write_outcome(4, 4).is_ok());
    assert_eq!(write_outcome(4, 3), Err(ScanError::WriteFailed));
    assert_eq!(write_outcome(4, 0), Err(ScanError::WriteFailed));
}

#[test]
fn word_codec_round_trips() {
    let bytes = encode_u32_le(0x0403_0201);
    assert_eq!(bytes, vec![0x01, 0x02, 0x03, 0x04]);
    assert_eq!(word_from_le(bytes[0], bytes[1], bytes[2], bytes[3]), 0x0403_0201);
    assert_eq!(encode_u32_le(0), vec![0, 0, 0, 0]);
    assert_eq!(word_from_le(0xff, 0xff, 0xff, 0xff), u32::MAX);
}
