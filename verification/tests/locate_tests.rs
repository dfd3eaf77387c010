use fsidx::codec::encode_vlq;
use fsidx::config::LocateConfig;
use fsidx::config::Settings;
use fsidx::filter::compile;
use fsidx::filter::FilterToken;
use fsidx::config::VolumeInfo;
use fsidx::locate::locate;
use fsidx::locate::locate_volume;
use fsidx::locate::AbortFlag;
use fsidx::locate::FileIndexReader;
use fsidx::locate::LocateError;
use fsidx::locate::Metadata;
use fsidx::update::write_database;
use fsidx::update::ScanEntry;

fn entry(path: &str, size: Option<u64>) -> ScanEntry {
    ScanEntry {
        path: path.as_bytes().to_vec(),
        size,
    }
}

fn read_all(data: Vec<u8>) -> Vec<(Vec<u8>, Metadata)> {
    let mut reader = FileIndexReader::new(data).unwrap();
    let mut out = Vec::new();
    while let Some(e) = reader.next().unwrap() {
        out.push(e);
    }
    out
}

#[test]
fn read_back_names_only() {
    let entries = vec![entry("/a", None), entry("/ab", None), entry("/abc", None)];
    let data = write_database(&entries, Settings::FileNamesOnly);
    let got = read_all(data);
    assert_eq!(got.len(), 3);
    assert_eq!(got[0].0, b"/a".to_vec());
    assert_eq!(got[1].0, b"/ab".to_vec());
    assert_eq!(got[2].0, b"/abc".to_vec());
    assert_eq!(got[0].1.size, None);
    assert_eq!(got[1].1.size, None);
    assert_eq!(got[2].1.size, None);
}

#[test]
fn read_back_with_sizes_and_wire_values() {
    let entries = vec![
        entry("/a", Some(1)),
        entry("/ab", Some(100)),
        entry("/abc", Some(10000)),
    ];
    let data = write_database(&entries, Settings::WithFileSizes);
    let got = read_all(data.clone());
    assert_eq!(got.len(), 3);
    assert_eq!(got[0].1.size, Some(1));
    assert_eq!(got[1].1.size, Some(100));
    assert_eq!(got[2].1.size, Some(10000));

    // The wire stores each size plus one: 2, 101 and 10001.
    let mut expected: Vec<u8> = b"fsix\x01".to_vec();
    encode_vlq(0, &mut expected); // discard
    encode_vlq(2, &mut expected); // suffix length
    expected.extend_from_slice(b"/a");
    encode_vlq(2, &mut expected); // size 1 + 1
    encode_vlq(0, &mut expected);
    encode_vlq(1, &mut expected);
    expected.extend_from_slice(b"b");
    encode_vlq(101, &mut expected); // size 100 + 1
    encode_vlq(0, &mut expected);
    encode_vlq(1, &mut expected);
    expected.extend_from_slice(b"c");
    encode_vlq(10001, &mut expected); // size 10000 + 1
    assert_eq!(data, expected);
}

#[test]
fn header_errors() {
    assert!(matches!(
        FileIndexReader::new(b"nope".to_vec()),
        Err(LocateError::ExpectedFsdbFile)
    ));
    assert!(matches!(
        FileIndexReader::new(b"fsi".to_vec()),
        Err(LocateError::ExpectedFsdbFile)
    ));
    assert!(matches!(
        FileIndexReader::new(b"fsix".to_vec()),
        Err(LocateError::UnexpectedEof)
    ));
    assert!(matches!(
        FileIndexReader::new(b"fsix\x05".to_vec()),
        Err(LocateError::UnsupportedFileFormat)
    ));
}

#[test]
fn truncated_record_is_reported() {
    let entries = vec![entry("/abcdef", None)];
    let mut data = write_database(&entries, Settings::FileNamesOnly);
    data.truncate(data.len() - 2);
    let mut reader = FileIndexReader::new(data).unwrap();
    assert!(matches!(
        reader.next(),
        Err(LocateError::UnexpectedEof)
    ));
}

#[test]
fn case_sensitive_letters_select_the_uppercase_entry() {
    let entries = vec![
        entry("/ABC/DEFGHIJKLMN/OPQRSTUVWXYZ/eins", None),
        entry("/abc/defghijklmn/opqrstuvwxyz/zwei", None),
    ];
    let data = write_database(&entries, Settings::FileNamesOnly);
    let config = LocateConfig::default();
    let filter = compile(
        &[
            FilterToken::CaseSensitive,
            FilterToken::AnyOrder,
            FilterToken::WholePath,
            FilterToken::Text("Y".to_string()),
            FilterToken::Text("A".to_string()),
            FilterToken::Text("G".to_string()),
        ],
        &config,
    )
    .unwrap();
    let mut out = Vec::new();
    locate_volume(data.clone(), &filter, None, &mut out).unwrap();
    assert_eq!(out.len(), 1);
    assert_eq!(out[0].0, b"/ABC/DEFGHIJKLMN/OPQRSTUVWXYZ/eins".to_vec());

    let lower = compile(
        &[
            FilterToken::CaseSensitive,
            FilterToken::AnyOrder,
            FilterToken::WholePath,
            FilterToken::Text("y".to_string()),
            FilterToken::Text("a".to_string()),
            FilterToken::Text("g".to_string()),
        ],
        &config,
    )
    .unwrap();
    let mut out2 = Vec::new();
    locate_volume(data, &lower, None, &mut out2).unwrap();
    assert_eq!(out2.len(), 1);
    assert_eq!(out2[0].0, b"/abc/defghijklmn/opqrstuvwxyz/zwei".to_vec());
}

#[test]
fn pathnames_that_are_not_utf8_are_matched_lossily() {
    let mut raw = b"/x/".to_vec();
    raw.push(0xff);
    raw.extend_from_slice(b"music");
    let entries = vec![ScanEntry {
        path: raw.clone(),
        size: None,
    }];
    let data = write_database(&entries, Settings::FileNamesOnly);
    let config = LocateConfig::default();
    let filter = compile(&[FilterToken::Text("music".to_string())], &config).unwrap();
    let mut out = Vec::new();
    locate_volume(data, &filter, None, &mut out).unwrap();
    assert_eq!(out.len(), 1);
    assert_eq!(out[0].0, raw);
}

#[test]
fn abort_before_the_second_record() {
    let mut entries = Vec::new();
    for i in 0..100000u64 {
        entries.push(ScanEntry {
            path: format!("/library/file{}", i).into_bytes(),
            size: None,
        });
    }
    let data = write_database(&entries, Settings::FileNamesOnly);
    let config = LocateConfig::default();
    let filter = compile(&[FilterToken::Text("file".to_string())], &config).unwrap();
    let abort = AbortFlag::new();
    abort.set();
    let mut out = Vec::new();
    let r = locate_volume(data, &filter, Some(&abort), &mut out);
    assert!(matches!(r, Err(LocateError::Aborted)));
    assert!(out.len() <= 1);
}

#[test]
fn trivial_query_and_bad_glob_are_rejected_by_the_compiler() {
    let config = LocateConfig::default();
    assert!(matches!(
        compile(&[FilterToken::Text(" - ".to_string())], &config),
        Err(LocateError::Trivial)
    ));
    match compile(
        &[FilterToken::Glob, FilterToken::Text("a[".to_string())],
        &config,
    ) {
        Err(LocateError::GlobPatternError(pat, _cause)) => {
            assert_eq!(pat, "a[".to_string());
        }
        _ => panic!("expected a glob pattern error"),
    }
}

#[test]
fn locate_runs_over_all_volumes() {
    let first = write_database(
        &vec![entry("/one/song.mp3", None), entry("/one/text.txt", None)],
        Settings::FileNamesOnly,
    );
    let second = write_database(&vec![entry("/two/tune.mp3", None)], Settings::FileNamesOnly);
    let vol = |name: &str, data: Vec<u8>| {
        (
            VolumeInfo {
                folder: name.to_string(),
                database: format!("{}.fsdb", name),
            },
            data,
        )
    };
    let config = LocateConfig::default();
    let mut out = Vec::new();
    locate(
        vec![vol("/one", first.clone()), vol("/two", second.clone())],
        &[FilterToken::Text("mp3".to_string())],
        &config,
        None,
        &mut out,
    )
    .unwrap();
    assert_eq!(out.len(), 2);
    assert_eq!(out[0].0, b"/one/song.mp3".to_vec());
    assert_eq!(out[1].0, b"/two/tune.mp3".to_vec());

    // A trivial query is a benign no-op over every volume.
    let mut none = Vec::new();
    locate(
        vec![vol("/one", first), vol("/two", second)],
        &[],
        &config,
        None,
        &mut none,
    )
    .unwrap();
    assert_eq!(none.len(), 0);
}
