use transcript_archive::error::DecompressError;
use transcript_archive::extract::{
    decompress, decompress_latest, entry_text, extract_pass, is_csv_path, select_pass, PassMode,
};

fn tar_bytes(entries: &[(&str, &[u8])]) -> Vec<u8> {
    let mut builder = tar::Builder::new(Vec::new());
    for (path, data) in entries {
        let mut header = tar::Header::new_gnu();
        header.set_size(data.len() as u64);
        header.set_mode(0o644);
        builder.append_data(&mut header, path, *data).unwrap();
    }
    builder.into_inner().unwrap()
}

fn compressed(entries: &[(&str, &[u8])]) -> Vec<u8> {
    zstd::stream::encode_all(&tar_bytes(entries)[..], 0).unwrap()
}

fn sample() -> Vec<u8> {
    compressed(&[
        ("transcriptions/0.csv", b"zero,0\n"),
        ("transcriptions/5.csv", b"five,5\n"),
        ("transcriptions/42.csv", b"forty-two,42\n"),
    ])
}

const MODES: [PassMode; 2] = [PassMode::BufferOnce, PassMode::DecompressTwice];

#[test]
fn latest_transcript_round_trip() {
    let input = sample();
    for mode in MODES {
        let out = decompress_latest(&input, mode).unwrap();
        assert_eq!(out, vec!["forty-two,42\n".to_string()]);
    }
}

#[test]
fn latest_ignores_non_transcripts() {
    let input = compressed(&[
        ("transcriptions/3.csv", b"three"),
        ("transcriptions/latest.csv", b"latest"),
        ("other/10.csv", b"other"),
        ("transcriptions/99.txt", b"text"),
    ]);
    for mode in MODES {
        assert_eq!(decompress_latest(&input, mode).unwrap(), vec!["three".to_string()]);
    }
}

#[test]
fn latest_skips_signed_and_malformed_names() {
    let input = compressed(&[
        ("transcriptions/3.csv", b"three"),
        ("transcriptions/latest.csv", b"latest"),
        ("other/10.csv", b"other"),
        ("transcriptions/99.txt", b"txt"),
        ("transcriptions/+50.csv", b"plus"),
        ("transcriptions/7a.csv", b"x"),
    ]);
    for mode in MODES {
        assert_eq!(decompress_latest(&input, mode).unwrap(), vec!["three".to_string()]);
    }
}

#[test]
fn latest_first_of_equal_numbers_in_archive() {
    let input = compressed(&[
        ("transcriptions/7.csv", b"first"),
        ("transcriptions/007.csv", b"second"),
        ("transcriptions/2.csv", b"two"),
    ]);
    for mode in MODES {
        assert_eq!(decompress_latest(&input, mode).unwrap(), vec!["first".to_string()]);
    }
}

#[test]
fn only_chosen_entry_is_decoded() {
    let input = compressed(&[
        ("transcriptions/1.csv", &[0xff, 0xfe]),
        ("notes/bin.dat", &[0xc3, 0x28]),
        ("transcriptions/9.csv", b"nine"),
    ]);
    for mode in MODES {
        assert_eq!(decompress_latest(&input, mode).unwrap(), vec!["nine".to_string()]);
    }
}

#[test]
fn truncated_entry_is_container_error() {
    let tar = tar_bytes(&[("transcriptions/1.csv", &[b'a'; 1000])]);
    let cut = zstd::stream::encode_all(&tar[..612], 0).unwrap();
    assert!(matches!(
        decompress_latest(&cut, PassMode::BufferOnce),
        Err(DecompressError::ContainerFormatError(_))
    ));
    assert!(matches!(decompress(&cut), Err(DecompressError::ContainerFormatError(_))));
}

#[test]
fn truncated_other_entry_is_container_error() {
    let tar = tar_bytes(&[
        ("transcriptions/1.csv", b"one"),
        ("notes/big.bin", &[b'b'; 1000]),
    ]);
    let cut = zstd::stream::encode_all(&tar[..1536 + 100], 0).unwrap();
    for mode in MODES {
        assert!(matches!(
            decompress_latest(&cut, mode),
            Err(DecompressError::ContainerFormatError(_))
        ));
    }
    assert!(matches!(decompress(&cut), Err(DecompressError::ContainerFormatError(_))));
    let no_csv = tar_bytes(&[("notes/big.bin", &[b'b'; 1000])]);
    let cut = zstd::stream::encode_all(&no_csv[..600], 0).unwrap();
    assert!(matches!(
        decompress_latest(&cut, PassMode::BufferOnce),
        Err(DecompressError::ContainerFormatError(_))
    ));
    assert!(matches!(decompress(&cut), Err(DecompressError::ContainerFormatError(_))));
}

#[test]
fn decompress_reads_csv_with_non_utf8_name() {
    let mut builder = tar::Builder::new(Vec::new());
    let mut header = tar::Header::new_gnu();
    let name: &[u8] = b"transcriptions/\xff.csv";
    header.as_gnu_mut().unwrap().name[..name.len()].copy_from_slice(name);
    header.set_size(4);
    header.set_mode(0o644);
    header.set_cksum();
    builder.append(&header, &b"odd!"[..]).unwrap();
    let input = zstd::stream::encode_all(&builder.into_inner().unwrap()[..], 0).unwrap();
    assert_eq!(decompress(&input).unwrap(), vec!["odd!".to_string()]);
    assert_eq!(
        decompress_latest(&input, PassMode::BufferOnce).unwrap(),
        Vec::<String>::new()
    );
}

#[test]
fn decompress_stops_on_bad_utf8() {
    let input = compressed(&[
        ("transcriptions/1.csv", b"one"),
        ("transcriptions/x.csv", &[0xff]),
    ]);
    assert!(matches!(decompress(&input), Err(DecompressError::TextDecodeError(_))));
}

#[test]
fn latest_keeps_first_of_equal_numbers() {
    let input = compressed(&[
        ("transcriptions/a/7.csv", b"first"),
        ("transcriptions/b/7.csv", b"second"),
    ]);
    assert_eq!(
        decompress_latest(&input, PassMode::BufferOnce).unwrap(),
        vec!["first".to_string()]
    );
}

#[test]
fn no_transcripts_gives_empty_output() {
    let input = compressed(&[("notes/readme.txt", b"hello"), ("other/1.csv", b"x")]);
    for mode in MODES {
        assert_eq!(decompress_latest(&input, mode).unwrap(), Vec::<String>::new());
    }
    let empty = compressed(&[]);
    assert_eq!(decompress_latest(&empty, PassMode::BufferOnce).unwrap(), Vec::<String>::new());
}

#[test]
fn corrupt_header_is_decode_error() {
    let mut input = sample();
    input[0] ^= 0xff;
    input[1] ^= 0xff;
    for mode in MODES {
        assert!(matches!(
            decompress_latest(&input, mode),
            Err(DecompressError::DecodeError(_))
        ));
    }
    assert!(matches!(decompress(&input), Err(DecompressError::DecodeError(_))));
}

#[test]
fn truncated_stream_is_decode_error() {
    let input = sample();
    let cut = &input[..input.len() - 4];
    assert!(matches!(
        decompress_latest(cut, PassMode::BufferOnce),
        Err(DecompressError::DecodeError(_))
    ));
}

#[test]
fn malformed_archive_is_container_error() {
    let garbage = zstd::stream::encode_all(&[7u8; 1024][..], 0).unwrap();
    assert!(matches!(
        decompress_latest(&garbage, PassMode::BufferOnce),
        Err(DecompressError::ContainerFormatError(_))
    ));
    assert!(matches!(
        decompress(&garbage),
        Err(DecompressError::ContainerFormatError(_))
    ));
}

#[test]
fn invalid_utf8_is_text_decode_error() {
    let input = compressed(&[
        ("transcriptions/1.csv", b"fine"),
        ("transcriptions/2.csv", &[0x66, 0xff, 0xfe, 0x6f]),
    ]);
    for mode in MODES {
        assert!(matches!(
            decompress_latest(&input, mode),
            Err(DecompressError::TextDecodeError(_))
        ));
    }
}

#[test]
fn extraction_twice_gives_same_output() {
    let input = sample();
    for mode in MODES {
        let first = decompress_latest(&input, mode).unwrap();
        let second = decompress_latest(&input, mode).unwrap();
        assert_eq!(first, second);
    }
    let a = decompress_latest(&input, PassMode::BufferOnce).unwrap();
    let b = decompress_latest(&input, PassMode::DecompressTwice).unwrap();
    assert_eq!(a, b);
}

#[test]
fn decompress_reads_every_csv_in_order() {
    let input = compressed(&[
        ("transcriptions/5.csv", b"five"),
        ("other/1.csv", b"other"),
        ("transcriptions/latest.csv", b"latest"),
        ("transcriptions/0.csv", b"zero"),
    ]);
    assert_eq!(
        decompress(&input).unwrap(),
        vec!["five".to_string(), "latest".to_string(), "zero".to_string()]
    );
}

#[test]
fn select_pass_on_plain_archive() {
    let data = tar_bytes(&[
        ("transcriptions/2.csv", b"two"),
        ("transcriptions/11.csv", b"eleven"),
    ]);
    assert_eq!(select_pass(&data).unwrap(), Some("transcriptions/11.csv".to_string()));
    assert_eq!(select_pass(&tar_bytes(&[])).unwrap(), None);
}

#[test]
fn extract_pass_reads_target_only() {
    let data = tar_bytes(&[
        ("transcriptions/2.csv", b"two"),
        ("transcriptions/11.csv", b"eleven"),
    ]);
    let out = extract_pass(&data, Some("transcriptions/2.csv".to_string())).unwrap();
    assert_eq!(out, vec!["two".to_string()]);
    let missing = extract_pass(&data, Some("transcriptions/3.csv".to_string())).unwrap();
    assert!(missing.is_empty());
    assert!(extract_pass(&data, None).unwrap().is_empty());
}

#[test]
fn entry_text_decodes_utf8() {
    assert_eq!(entry_text("a,ü\n".as_bytes().to_vec()).unwrap(), "a,ü\n");
    assert!(matches!(
        entry_text(vec![0xc3, 0x28]),
        Err(DecompressError::TextDecodeError(_))
    ));
}

#[test]
fn csv_path_check() {
    assert!(is_csv_path("transcriptions/latest.csv"));
    assert!(is_csv_path("transcriptions/3.csv"));
    assert!(!is_csv_path("other/3.csv"));
    assert!(!is_csv_path("transcriptions/3.txt"));
}
