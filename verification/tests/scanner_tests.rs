use memscan::codec::{encode_u32_le, word_from_le};
use memscan::fallback;
use memscan::memory::{MemoryRegion, RegionRead};
use memscan::parse::{parse_scan_target, ScanTarget};
use memscan::process::Process;
use memscan::scanner::{scan_candidates, scan_exact};

/// Builds the snapshot a scan of the synthetic fallback memory sees.
fn fallback_snapshot(process: &Process) -> Vec<RegionRead> {
    let regions = fallback::get_memory_regions(process).unwrap();
    regions
        .into_iter()
        .map(|region| {
            let data = fallback::read_memory(process, region.start, region.size).unwrap();
            RegionRead {
                region,
                data: Some(data),
            }
        })
        .collect()
}

/// Applies the fuzzy predicate to the candidate windows, as the shell
/// does: keep a window when its bits, read as a 32-bit float, lie
/// within the tolerance of the target.
fn fuzzy_filter(
    candidates: &[memscan::scanner::Candidate],
    target: f32,
    tolerance: f32,
) -> Vec<(usize, String)> {
    let mut out = Vec::new();
    for c in candidates {
        let v = f32::from_bits(c.bits);
        if (v - target).abs() <= tolerance {
            out.push((c.address, v.to_string()));
        }
    }
    out
}

#[test]
fn test_scan_exact() {
    let process = Process::new(1234, "test.exe".to_string());
    let snapshot = fallback_snapshot(&process);
    let results = scan_exact(&snapshot, 100);
    assert_eq!(results.len(), 1);
    assert_eq!(results[0].address, 0x150000);
    assert_eq!(results[0].value, "100");
}

#[test]
fn test_scan_fuzzy() {
    let process = Process::new(1234, "test.exe".to_string());
    let snapshot = fallback_snapshot(&process);
    let candidates = scan_candidates(&snapshot);
    let results = fuzzy_filter(&candidates, 100.0, 1.0);
    assert_eq!(results.len(), 1);
    assert_eq!(results[0].0, 0x180000);
    assert_eq!(results[0].1, "100.5");
}

#[test]
fn planted_word_found_at_unaligned_offset() {
    let mut data = vec![0u8; 64];
    let bytes = encode_u32_le(42);
    data[5..9].copy_from_slice(&bytes);
    let snapshot = vec![RegionRead {
        region: MemoryRegion {
            start: 0x1000,
            size: 64,
        },
        data: Some(data),
    }];
    let results = scan_exact(&snapshot, 42);
    assert_eq!(results.len(), 1);
    assert_eq!(results[0].address, 0x1005);
    assert_eq!(results[0].value, "42");
}

#[test]
fn overlapping_windows_are_all_checked() {
    // All-zero bytes: every window matches 0, including the final
    // offset length - 4.
    let snapshot = vec![RegionRead {
        region: MemoryRegion { start: 0x10, size: 8 },
        data: Some(vec![0u8; 8]),
    }];
    let results = scan_exact(&snapshot, 0);
    assert_eq!(results.len(), 5);
    for (i, r) in results.iter().enumerate() {
        assert_eq!(r.address, 0x10 + i);
    }
}

#[test]
fn results_ordered_by_region_then_offset() {
    let bytes = encode_u32_le(7);
    let mut data_a = vec![0xffu8; 32];
    data_a[20..24].copy_from_slice(&bytes);
    data_a[3..7].copy_from_slice(&bytes);
    let mut data_b = vec![0xffu8; 16];
    data_b[0..4].copy_from_slice(&bytes);
    let snapshot = vec![
        RegionRead {
            region: MemoryRegion {
                start: 0x9000,
                size: 32,
            },
            data: Some(data_a),
        },
        // enumeration order, not address order: this region lies lower
        RegionRead {
            region: MemoryRegion {
                start: 0x2000,
                size: 16,
            },
            data: Some(data_b),
        },
    ];
    let results = scan_exact(&snapshot, 7);
    let addresses: Vec<usize> = results.iter().map(|r| r.address).collect();
    assert_eq!(addresses, vec![0x9003, 0x9014, 0x2000]);
}

#[test]
fn failed_region_is_skipped_not_fatal() {
    let bytes = encode_u32_le(99);
    let mut data_a = vec![0u8; 16];
    data_a[0..4].copy_from_slice(&bytes);
    let mut data_c = vec![0u8; 16];
    data_c[8..12].copy_from_slice(&bytes);
    let snapshot = vec![
        RegionRead {
            region: MemoryRegion {
                start: 0x1000,
                size: 16,
            },
            data: Some(data_a),
        },
        RegionRead {
            region: MemoryRegion {
                start: 0x2000,
                size: 16,
            },
            data: None,
        },
        RegionRead {
            region: MemoryRegion {
                start: 0x3000,
                size: 16,
            },
            data: Some(data_c),
        },
    ];
    let results = scan_exact(&snapshot, 99);
    let addresses: Vec<usize> = results.iter().map(|r| r.address).collect();
    // 0 at offsets of the zero padding also match nothing: target is 99
    assert_eq!(addresses, vec![0x1000, 0x3008]);
}

#[test]
fn write_then_scan_round_trip() {
    // Parse the write value as the shell does, encode it, land it at
    // the target address, and scan it back.
    let target = match parse_scan_target("42").unwrap() {
        ScanTarget::Word(v) => v,
        ScanTarget::FloatText => panic!("decimal text must parse as a word"),
    };
    let bytes = encode_u32_le(target);
    assert_eq!(bytes.len(), 4);
    let region = MemoryRegion {
        start: 0x0,
        size: 0x100,
    };
    let mut data = vec![0xeeu8; 0x100];
    data[0x64..0x68].copy_from_slice(&bytes);
    let snapshot = vec![RegionRead {
        region,
        data: Some(data),
    }];
    let results = scan_exact(&snapshot, 42);
    assert_eq!(results.len(), 1);
    assert_eq!(results[0].address, 0x64);
    assert_eq!(results[0].value, "42");
}

#[test]
fn hex_write_value_encodes_to_four_bytes() {
    let target = match parse_scan_target("0x0A").unwrap() {
        ScanTarget::Word(v) => v,
        ScanTarget::FloatText => panic!("hex text must parse as a word"),
    };
    assert_eq!(target, 10);
    let bytes = encode_u32_le(target);
    assert_eq!(bytes, vec![0x0a, 0x00, 0x00, 0x00]);
}

#[test]
fn fuzzy_beyond_tolerance_misses() {
    let mut data = vec![0u8; 32];
    data[8..12].copy_from_slice(&100.5f32.to_le_bytes());
    let snapshot = vec![RegionRead {
        region: MemoryRegion {
            start: 0x5000,
            size: 32,
        },
        data: Some(data),
    }];
    let candidates = scan_candidates(&snapshot);
    // within tolerance: found at the planted offset
    let close = fuzzy_filter(&candidates, 100.0, 1.0);
    assert_eq!(close.len(), 1);
    assert_eq!(close[0].0, 0x5008);
    // farther than the tolerance: no match at that offset
    let far = fuzzy_filter(&candidates, 98.0, 1.0);
    assert!(far.iter().all(|(a, _)| *a != 0x5008));
    // tolerance zero degenerates to exact float equality
    let exact = fuzzy_filter(&candidates, 100.5, 0.0);
    assert_eq!(exact.len(), 1);
    assert_eq!(exact[0].0, 0x5008);
}

#[test]
fn candidates_cover_every_window_in_order() {
    let data = vec![1u8, 2, 3, 4, 5, 6];
    let snapshot = vec![RegionRead {
        region: MemoryRegion {
            start: 0x100,
            size: 6,
        },
        data: Some(data.clone()),
    }];
    let candidates = scan_candidates(&snapshot);
    assert_eq!(candidates.len(), 3);
    for (i, c) in candidates.iter().enumerate() {
        assert_eq!(c.address, 0x100 + i);
        assert_eq!(
            c.bits,
            word_from_le(data[i], data[i + 1], data[i + 2], data[i + 3])
        );
    }
}

#[test]
fn short_region_has_no_windows() {
    let snapshot = vec![
        RegionRead {
            region: MemoryRegion { start: 0x0, size: 3 },
            data: Some(vec![0u8; 3]),
        },
        RegionRead {
            region: MemoryRegion {
                start: 0x10,
                size: 4,
            },
            data: Some(vec![0u8; 4]),
        },
    ];
    let results = scan_exact(&snapshot, 0);
    // the 3-byte region holds no window; the 4-byte one holds exactly one
    assert_eq!(results.len(), 1);
    assert_eq!(results[0].address, 0x10);
}

#[test]
fn fallback_reads_are_deterministic() {
    let process = Process::new(1, "p".to_string());
    let a = fallback::read_memory(&process, 0x150000 - 8, 32).unwrap();
    let b = fallback::read_memory(&process, 0x150000 - 8, 32).unwrap();
    assert_eq!(a, b);
    assert_eq!(a.len(), 32);
    assert_eq!(a[8], 100);
    let regions = fallback::get_memory_regions(&process).unwrap();
    assert_eq!(regions.len(), 2);
    assert_eq!(regions[0], MemoryRegion { start: 0x100000, size: 0x100000 });
    assert_eq!(regions[1], MemoryRegion { start: 0x200000, size: 0x100000 });
    assert!(fallback::write_memory(&process, 0x150000, &[1, 2, 3, 4]).is_ok());
}
