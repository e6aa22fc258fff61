use nxpch::output::{
    check_generate_ips, generate_ips, generate_pchtxt, IpsGenerateError, PatchVec,
};

fn generate_patch_vec(patches: &[(u32, &[u8])]) -> PatchVec {
    let mut vec = PatchVec::new();
    for &(addr, patch) in patches {
        vec.put(addr, patch);
    }
    vec
}

#[test]
fn test_patch_vec() {
    let mut vec = PatchVec::new();
    vec.put_byte(10, 10);
    vec.put(50, &[10, 20, 30]);
    vec.put(60, &[40, 50, 60]);
    vec.put_byte(63, 100);

    let mut iter = vec.iter_hunks(100);
    let next = |found: Option<(u32, nxpch::output::Hunk)>| {
        found.map(|(address, hunk)| (address, hunk.as_slice().to_vec()))
    };
    assert_eq!(iter.size_hint(), (1, Some(8)));
    assert_eq!(next(iter.next()), Some((10, vec![10])));
    assert_eq!(iter.size_hint(), (1, Some(7)));
    assert_eq!(next(iter.next()), Some((50, vec![10, 20, 30])));
    assert_eq!(iter.size_hint(), (1, Some(4)));
    assert_eq!(next(iter.next()), Some((60, vec![40, 50, 60, 100])));
    assert_eq!(iter.size_hint(), (0, Some(0)));
    assert_eq!(next(iter.next()), None);

    assert!(vec.has_hunk_starting_at(50));
    assert!(!vec.has_hunk_starting_at(62));
    assert!(!vec.has_hunk_starting_at(0));
}

#[test]
fn test_generate_pchtxt() {
    fn generate(patches: &[(u32, &[u8])]) -> String {
        let result = generate_pchtxt(&generate_patch_vec(patches), 0);

        let mut str = String::from_utf8(result).unwrap();
        assert_eq!(
            &str[..49],
            "@nsobid-00000000000000000000000000000000\n@enabled",
        );
        assert_eq!(&str[str.len() - 1..], "\n");
        str.drain(..49);
        str.drain(str.len() - 1..);
        str
    }

    assert_eq!(
        generate(&[(0, &[50])]),
        r#"
00000000 32"#
    );
    assert_eq!(
        generate(&[(50, "Hello!\0".as_bytes())]),
        r#"
00000032 "Hello!""#
    );
    assert_eq!(
        generate(&[
            (50, "Hello!\0".as_bytes()),
            (57, "Multi\nline\nstring\twith\ttabs\0".as_bytes()),
        ]),
        r#"
00000032 "Hello!"
00000039 "Multi\nline\nstring\twith\ttabs""#
    );
    assert_eq!(
        generate(&[
            (50, "Hello!\0".as_bytes()),
            (57, &[10, 20]),
            (59, "Multi\nline\nstring\twith\ttabs\0".as_bytes()),
        ]),
        r#"
00000032 48656C6C6F21000A14
0000003B "Multi\nline\nstring\twith\ttabs""#
    );
}

fn generate_records(patches: &[(u32, &[u8])]) -> Vec<u8> {
    let vec = generate_patch_vec(patches);
    let mut result = generate_ips(&vec).unwrap();

    assert_eq!(&result[..5], b"IPS32");
    assert_eq!(&result[result.len() - 4..], b"EEOF");
    result.drain(..5);
    result.drain(result.len() - 4..);
    result
}

#[test]
fn test_generate_ips() {
    assert_eq!(
        generate_records(&[(50, &[10, 20, 30])]),
        &[0, 0, 0, 50, 0, 3, 10, 20, 30],
    );
    assert_eq!(
        generate_records(&[(50, &[30, 30, 30])]),
        &[0, 0, 0, 50, 0, 3, 30, 30, 30],
    );

    assert_eq!(
        generate_records(&[(50, &[10, 20, 30, 40, 50, 60])]),
        &[0, 0, 0, 50, 0, 6, 10, 20, 30, 40, 50, 60],
    );
    assert_eq!(
        generate_records(&[(50, &[30, 30, 30, 30, 30, 30])]),
        &[0, 0, 0, 50, 0, 0, 0, 6, 30],
    );

    assert_eq!(
        generate_records(&[(
            50,
            &[10, 11, 12, 13, 14, 15, 16, 17, 18, 19, 20, 21, 22, 23, 24]
        )]),
        &[0, 0, 0, 50, 0, 15, 10, 11, 12, 13, 14, 15, 16, 17, 18, 19, 20, 21, 22, 23, 24],
    );
    assert_eq!(
        generate_records(&[(50, &[10, 10, 10, 10, 10, 10, 10, 10, 10, 10, 10])]),
        &[0, 0, 0, 50, 0, 0, 0, 11, 10],
    );
    assert_eq!(
        generate_records(&[(
            50,
            &[10, 10, 10, 10, 10, 10, 10, 10, 10, 10, 10, 21, 22, 23, 24]
        )]),
        &[
            0, 0, 0, 50, 0, 0, 0, 11, 10, //
            0, 0, 0, 61, 0, 4, 21, 22, 23, 24,
        ],
    );
    assert_eq!(
        generate_records(&[(
            50,
            &[
                10, 10, 10, 10, 10, 10, 10, 10, 10, 10, 10, 20, 20, 20, 20, 20, 20, 20, 20, 20,
                20, 20,
            ]
        )]),
        &[
            0, 0, 0, 50, 0, 0, 0, 11, 10, //
            0, 0, 0, 61, 0, 0, 0, 11, 20,
        ],
    );
    assert_eq!(
        generate_records(&[(
            50,
            &[
                10, 10, 10, 10, 10, 10, 10, 10, 10, 10, 10, 12, 13, 14, 15, 16, 17, 18, 20, 20,
                20, 20, 20, 20, 20, 20, 20, 20, 20,
            ]
        )]),
        &[
            0, 0, 0, 50, 0, 0, 0, 11, 10, //
            0, 0, 0, 61, 0, 7, 12, 13, 14, 15, 16, 17, 18, //
            0, 0, 0, 68, 0, 0, 0, 11, 20,
        ],
    );

    assert_eq!(
        generate_records(&[(
            50,
            &[
                10, 11, 12, 13, 50, 50, 50, 50, 50, 50, 50, 50, 50, 50, 50, 50, 50, 50, 50, 50,
                80, 81, 82, 83,
            ]
        )]),
        &[
            0, 0, 0, 50, 0, 4, 10, 11, 12, 13, //
            0, 0, 0, 54, 0, 0, 0, 16, 50, //
            0, 0, 0, 70, 0, 4, 80, 81, 82, 83,
        ],
    );

    assert_eq!(generate_records(&[(0x45454F44, b"hello")]), b"EEOD\0\x05hello");
    // This offset is because 0x45444F46 + 0xFFFF ends right before 0x45454F46
    assert_eq!(
        generate_records(&[(0x45444F47, &[18; 0x10010])]),
        &[
            0x45, 0x44, 0x4F, 0x47, 0, 0, 0xFF, 0xFE, 18, //
            0x45, 0x45, 0x4F, 0x45, 0, 0, 0x00, 0x12, 18,
        ],
    );
    assert_eq!(
        generate_records(&[(0x45444F47, &[18; 0x20010])]),
        &[
            0x45, 0x44, 0x4F, 0x47, 0, 0, 0xFF, 0xFE, 18, //
            0x45, 0x45, 0x4F, 0x45, 0, 0, 0xFF, 0xFF, 18, //
            0x45, 0x46, 0x4F, 0x44, 0, 1, 18, //
            0x45, 0x46, 0x4F, 0x45, 0, 0, 0x00, 0x12, 18,
        ],
    );
}

#[test]
fn a_hunk_at_the_end_mark_cannot_be_ips() {
    let vec = generate_patch_vec(&[(0x45454F46, &[1, 2, 3])]);
    assert_eq!(check_generate_ips(&vec), Err(IpsGenerateError::HasEofHunk));
    assert_eq!(generate_ips(&vec), Err(IpsGenerateError::HasEofHunk));
    assert_eq!(
        IpsGenerateError::HasEofHunk.message(),
        "IPS Patch with hunk starting at address 0x45454F46 cannot be written"
    );
    let vec = generate_patch_vec(&[(0x45454F45, &[1, 2, 3])]);
    assert_eq!(check_generate_ips(&vec), Ok(()));
}

/// Applies the records of a patch file to nothing.
fn apply(file: &[u8]) -> Vec<(u32, u8)> {
    let mut found = std::collections::BTreeMap::new();
    let mut at = 5;
    let mut reached = 0;
    while &file[at..at + 4] != b"EEOF" {
        let offset = u32::from_be_bytes([file[at], file[at + 1], file[at + 2], file[at + 3]]);
        let len = u32::from(file[at + 4]) * 256 + u32::from(file[at + 5]);
        at += 6;
        assert!(offset >= reached);
        if len == 0 {
            let run = u32::from(file[at]) * 256 + u32::from(file[at + 1]);
            for k in 0..run {
                found.insert(offset + k, file[at + 2]);
            }
            at += 3;
            reached = offset + run;
        } else {
            for k in 0..len {
                found.insert(offset + k, file[at + k as usize]);
            }
            at += len as usize;
            reached = offset + len;
        }
    }
    found.into_iter().collect()
}

#[test]
fn an_ips_file_gives_the_patch_back() {
    let long: Vec<u8> = (0..300u32).map(|k| if k % 40 < 20 { 7 } else { k as u8 }).collect();
    let patches: [(u32, &[u8]); 3] = [(16, &long), (1000, &[1, 2, 3]), (5000, &[9; 70])];
    let vec = generate_patch_vec(&patches);
    let file = generate_ips(&vec).unwrap();
    let mut expected = vec![];
    for (address, bytes) in patches {
        for (k, byte) in bytes.iter().enumerate() {
            expected.push((address + k as u32, *byte));
        }
    }
    assert_eq!(apply(&file), expected);
}

#[test]
fn hunks_are_cut_at_the_largest_size() {
    let vec = generate_patch_vec(&[(0, &[1, 2, 3, 4, 5]), (9, &[6])]);
    let mut hunks = vec.iter_hunks(2);
    let mut found = vec![];
    while let Some((address, hunk)) = hunks.next() {
        assert_eq!(hunk.len(), hunk.as_slice().len());
        found.push((address, hunk.as_slice().to_vec()));
    }
    assert_eq!(found, [(0, vec![1, 2]), (2, vec![3, 4]), (4, vec![5]), (9, vec![6])]);
}

#[test]
fn later_bytes_replace_earlier_ones_and_addresses_wrap() {
    let mut vec = generate_patch_vec(&[(u32::MAX, &[1, 2])]);
    vec.put_byte(0, 3);
    assert!(vec.has_edit_at(u32::MAX));
    assert!(vec.has_edit_at(0));
    assert!(!vec.has_edit_at(1));
    assert!(vec.has_hunk_starting_at(u32::MAX));
    let text = String::from_utf8(generate_pchtxt(&vec, 0xAB)).unwrap();
    assert_eq!(
        text,
        "@nsobid-000000000000000000000000000000AB\n@enabled\n00000000 03\nFFFFFFFF 01\n"
    );
}

#[test]
fn a_run_that_follows_a_run_is_a_record_of_its_own() {
    assert_eq!(
        generate_records(&[(50, &[10; 10]), (60, &[20; 15]), (75, &[30])]),
        [
            0, 0, 0, 50, 0, 0, 0, 10, 10, //
            0, 0, 0, 60, 0, 0, 0, 15, 20, //
            0, 0, 0, 75, 0, 1, 30,
        ],
    );
}

#[test]
fn no_record_starts_at_the_end_mark() {
    assert_eq!(
        generate_records(&[(0x45454F3C, &[1; 10]), (0x45454F46, &[2, 3, 4, 5, 6])]),
        [
            0x45, 0x45, 0x4F, 0x3C, 0, 0, 0, 9, 1, //
            0x45, 0x45, 0x4F, 0x45, 0, 2, 1, 2, //
            0x45, 0x45, 0x4F, 0x47, 0, 4, 3, 4, 5, 6,
        ],
    );
    let cases: [(u32, Vec<u8>); 3] = [
        (0x45454F45, [vec![1], vec![2; 20], vec![3]].concat()),
        (0x45454F30, [vec![5; 22], vec![6; 30]].concat()),
        (0x45454F36, [vec![7; 16], vec![8; 15], vec![9]].concat()),
    ];
    for (address, bytes) in cases {
        let vec = generate_patch_vec(&[(address, &bytes)]);
        let file = generate_ips(&vec).unwrap();
        let expected: Vec<(u32, u8)> =
            bytes.iter().enumerate().map(|(k, byte)| (address + k as u32, *byte)).collect();
        assert_eq!(apply(&file), expected);
    }
}
