use wasset::merge::decode_manifest;
use wasset::names::{data_section_name, manifest_section_name};
use wasset::parse::WassetParser;
use wasset::scan::scan_module;
use wasset::strip::strip_module;

/// A small generator of numbers that look random.
struct Numbers(u64);

impl Numbers {
    fn next(&mut self) -> u64 {
        self.0 = self.0.wrapping_mul(6364136223846793005).wrapping_add(1442695040888963407);
        self.0 >> 33
    }

    fn below(&mut self, bound: u64) -> u64 {
        self.next() % bound
    }

    fn bytes(&mut self, len: usize) -> Vec<u8> {
        (0..len).map(|_| self.next() as u8).collect()
    }
}

/// A buffer that starts like a module or a component and goes on with
/// sections that are well formed, damaged or cut off.
fn damaged(numbers: &mut Numbers) -> Vec<u8> {
    let mut buffer = match numbers.below(8) {
        0 => numbers.bytes(8),
        1 => vec![0x00, 0x61, 0x73, 0x6d, 0x0d, 0x00, 0x01, 0x00],
        _ => vec![0x00, 0x61, 0x73, 0x6d, 0x01, 0x00, 0x00, 0x00],
    };
    for _ in 0..numbers.below(6) {
        let contents = match numbers.below(4) {
            0 => {
                let name = match numbers.below(3) {
                    0 => manifest_section_name(numbers.next() as u128),
                    1 => data_section_name(numbers.next() as u128),
                    _ => "other".to_string(),
                };
                let mut contents = vec![name.len() as u8];
                contents.extend_from_slice(name.as_bytes());
                let len = numbers.below(40) as usize;
                contents.extend_from_slice(&numbers.bytes(len));
                contents
            }
            1 => damaged(numbers),
            _ => {
                let len = numbers.below(20) as usize;
                numbers.bytes(len)
            }
        };
        buffer.push(numbers.below(16) as u8);
        let declared = match numbers.below(6) {
            0 => numbers.below(300) as usize,
            _ => contents.len(),
        };
        let mut len = declared;
        loop {
            let byte = (len & 0x7f) as u8;
            len >>= 7;
            if len == 0 {
                buffer.push(byte);
                break;
            }
            buffer.push(byte | 0x80);
        }
        buffer.extend_from_slice(&contents);
    }
    if numbers.below(5) == 0 {
        let keep = numbers.below(buffer.len() as u64 + 1) as usize;
        buffer.truncate(keep);
    }
    buffer
}

#[test]
fn damaged_modules_are_rejected_or_read() {
    let mut numbers = Numbers(0x5eed);
    let mut read = 0;
    let mut rejected = 0;
    for _ in 0..3000 {
        let module = damaged(&mut numbers);
        match scan_module(&module) {
            Ok(scan) => {
                read += 1;
                for (_, found) in scan.embeddings() {
                    if let Some((start, end)) = found.manifest {
                        assert!(start <= end && end <= module.len());
                    }
                    if let Some(offset) = found.data_offset {
                        assert!(offset as usize <= module.len());
                    }
                }
            }
            Err(_) => rejected += 1,
        }
        let _ = WassetParser::parse(&module).map(|parser| parser.ids().len());
    }
    assert!(read > 100 && rejected > 100);
}

#[test]
fn damaged_modules_are_rejected_or_stripped() {
    let mut numbers = Numbers(0xfeed);
    let mut stripped = 0;
    let mut rejected = 0;
    for _ in 0..3000 {
        let module = damaged(&mut numbers);
        match strip_module(&module) {
            Ok(output) => {
                stripped += 1;
                assert!(output.len() <= module.len() + 8);
                assert_eq!(strip_module(&output).unwrap(), output);
            }
            Err(_) => rejected += 1,
        }
    }
    assert!(stripped > 100 && rejected > 100);
}

#[test]
fn damaged_manifests_are_rejected_or_read() {
    let mut numbers = Numbers(0xbead);
    let mut wire = vec![0x81, 0xac];
    wire.extend_from_slice(b"asset_ranges");
    wire.extend_from_slice(&[0x82, 0xc4, 0x10]);
    wire.extend_from_slice(&[7; 16]);
    wire.extend_from_slice(&[0x82, 0xa5]);
    wire.extend_from_slice(b"start");
    wire.extend_from_slice(&[0x03, 0xa3]);
    wire.extend_from_slice(b"end");
    wire.extend_from_slice(&[0x09, 0xc4, 0x10]);
    wire.extend_from_slice(&[8; 16]);
    wire.extend_from_slice(&[0x82, 0xa3]);
    wire.extend_from_slice(b"end");
    wire.extend_from_slice(&[0x05, 0xa5]);
    wire.extend_from_slice(b"start");
    wire.push(0x04);
    assert_eq!(decode_manifest(&wire).unwrap().len(), 2);
    for _ in 0..3000 {
        let mut damaged = wire.clone();
        for _ in 0..1 + numbers.below(3) {
            let at = numbers.below(damaged.len() as u64) as usize;
            damaged[at] = numbers.next() as u8;
        }
        if numbers.below(4) == 0 {
            let keep = numbers.below(damaged.len() as u64) as usize;
            damaged.truncate(keep);
        }
        if let Ok(table) = decode_manifest(&damaged) {
            let mut ids: Vec<u128> = table.iter().map(|entry| entry.0).collect();
            ids.sort();
            ids.dedup();
            assert_eq!(ids.len(), table.len());
        }
    }
}
