use core::cmp::Ordering;
use fsidx::cli_config::get_db_file_path;
use fsidx::cli_config::get_volume_info;
use fsidx::cli_config::Config;
use fsidx::cli_config::Index;
use fsidx::config::LocateConfig;
use fsidx::update::compare;
use fsidx::update::group_volumes;

#[test]
fn test_compare() {
    assert_eq!(compare("foo", "foo"), Ordering::Equal);
    assert_eq!(compare("foo2", "foo10"), Ordering::Less);
    assert_eq!(
        compare("foo123456789012345678901234", "foo123456789012345678901234"),
        Ordering::Equal
    );
    assert_eq!(
        compare("foo23456789012345678901234", "foo123456789012345678901234"),
        Ordering::Less
    );
}

#[test]
fn natural_order_writes_file2_before_file10() {
    let mut names = vec!["file10", "file2"];
    names.sort_by(|a, b| compare(a, b));
    assert_eq!(names, vec!["file2", "file10"]);
}

#[test]
fn volumes_sharing_a_device_form_one_group() {
    let devs: Vec<u64> = vec![7, 3, 7, 3, 9];
    let groups = group_volumes(&devs);
    assert_eq!(groups, vec![vec![1usize, 3], vec![0, 2], vec![4]]);
}

#[test]
fn database_paths_are_derived_from_the_folder() {
    let config = Config {
        index: Index {
            folder: vec!["/Volumes/Music".to_string()],
            db_path: Some("/var/db".to_string()),
        },
        locate: LocateConfig::default(),
    };
    assert_eq!(
        get_db_file_path(&config, "/Volumes/Music"),
        Some("/var/db/_Volumes_Music.fsdb".to_string())
    );
    let vols = get_volume_info(&config).unwrap();
    assert_eq!(vols.len(), 1);
    assert_eq!(vols[0].folder, "/Volumes/Music".to_string());
    assert_eq!(vols[0].database, "/var/db/_Volumes_Music.fsdb".to_string());

    let none = Config {
        index: Index {
            folder: vec!["/Volumes/Music".to_string()],
            db_path: None,
        },
        locate: LocateConfig::default(),
    };
    assert_eq!(get_db_file_path(&none, "/Volumes/Music"), None);
    assert_eq!(get_volume_info(&none).unwrap().len(), 0);
}
