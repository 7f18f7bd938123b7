use s3_transfer::error::{PathField, TransferError};
use s3_transfer::keys::{
    copy_source, download_targets, folder_prefix, object_key, require_relative,
    upload_destination, upload_object_key, DownloadTarget,
};
use s3_transfer::settings::{config_file_path, Settings};

#[test]
fn leading_slash_is_refused() {
    assert_eq!(
        require_relative("/a/b", PathField::SourceKey),
        Err(TransferError::LeadingSlash { field: PathField::SourceKey })
    );
    assert_eq!(require_relative("a/b", PathField::Key), Ok(()));
    assert_eq!(require_relative("", PathField::Key), Ok(()));
}

#[test]
fn upload_destination_gets_a_trailing_slash() {
    assert_eq!(upload_destination("backups"), Ok("backups/".to_string()));
    assert_eq!(upload_destination("backups/"), Ok("backups/".to_string()));
    assert_eq!(upload_destination(""), Ok("/".to_string()));
    assert_eq!(
        upload_destination("/backups"),
        Err(TransferError::LeadingSlash { field: PathField::Destination })
    );
}

#[test]
fn folder_prefix_normalisation() {
    assert_eq!(folder_prefix("photos", PathField::Prefix), Ok("photos/".to_string()));
    assert_eq!(folder_prefix("photos/", PathField::Prefix), Ok("photos/".to_string()));
    assert_eq!(folder_prefix("", PathField::Source), Ok("".to_string()));
    assert_eq!(
        folder_prefix("/photos", PathField::Source),
        Err(TransferError::LeadingSlash { field: PathField::Source })
    );
}

#[test]
fn folder_prefix_is_idempotent() {
    for p in ["a", "a/", "", "a/b", "é"] {
        let once = folder_prefix(p, PathField::Prefix).unwrap();
        let twice = folder_prefix(&once, PathField::Prefix).unwrap();
        assert_eq!(once, twice);
    }
}

#[test]
fn object_key_appends_file_name_to_a_folder() {
    assert_eq!(object_key("docs/", "a.txt"), "docs/a.txt");
    assert_eq!(object_key("docs/renamed.txt", "a.txt"), "docs/renamed.txt");
    assert_eq!(object_key("", "a.txt"), "");
}

#[test]
fn upload_key_takes_the_file_name_of_the_path() {
    assert_eq!(upload_object_key("docs/", "/home/u/report.pdf"), Ok("docs/report.pdf".to_string()));
    assert_eq!(upload_object_key("docs/", "report.pdf"), Ok("docs/report.pdf".to_string()));
    assert_eq!(upload_object_key("docs/", "/tmp/dir/"), Ok("docs/dir".to_string()));
}

#[test]
fn upload_key_needs_a_file_name() {
    assert_eq!(
        upload_object_key("docs/", "/"),
        Err(TransferError::MissingFileName { source: "/".to_string() })
    );
    assert_eq!(
        upload_object_key("docs/", "a/.."),
        Err(TransferError::MissingFileName { source: "a/..".to_string() })
    );
}

#[test]
fn copy_source_text() {
    assert_eq!(copy_source("bucket", "a/b.txt"), "/bucket/a/b.txt");
    assert_eq!(copy_source("", ""), "//");
}

#[test]
fn download_targets_are_relative_to_the_prefix() {
    let keys = vec!["pics/a.png".to_string(), "pics/sub/b.png".to_string(), "other/c".to_string()];
    let t = download_targets("pics/", &keys, "/tmp/out");
    assert_eq!(
        t,
        vec![
            DownloadTarget { key: "pics/a.png".to_string(), destination: "/tmp/out/a.png".to_string() },
            DownloadTarget {
                key: "pics/sub/b.png".to_string(),
                destination: "/tmp/out/sub/b.png".to_string()
            },
            DownloadTarget { key: "other/c".to_string(), destination: "/tmp/out/other/c".to_string() },
        ]
    );
}

#[test]
fn download_target_of_absolute_relative_part_replaces_the_directory() {
    let keys = vec!["/etc/x".to_string()];
    let t = download_targets("", &keys, "/tmp/out");
    assert_eq!(t[0].destination, "/etc/x");
}

#[test]
fn config_file_defaults_to_config_yaml() {
    assert_eq!(config_file_path(None), "config.yaml");
    assert_eq!(config_file_path(Some("my.toml".to_string())), "my.toml");
}

#[test]
fn settings_hold_their_fields() {
    let s = Settings {
        endpoint: "http://localhost:9000".to_string(),
        region: "us-east-1".to_string(),
        bucket_name: "b".to_string(),
        access_key: "ak".to_string(),
        secret_key: "SECRET-REDACTED".to_string(),
    };
    assert_eq!(s.clone(), s);
    assert_eq!(s.bucket_name, "b");
}

#[test]
fn error_messages() {
    assert_eq!(TransferError::BadFileSize.message(), "Bad file size.");
    assert_eq!(
        TransferError::TooManyChunks.message(),
        "Too many chunks! Try increasing your chunk size."
    );
    assert_eq!(TransferError::MissingFileSize.message(), "Fail to get file size.");
    assert_eq!(TransferError::EmptyChunk.message(), "Failed to read chunk data");
    assert_eq!(
        TransferError::MissingFileName { source: "/".to_string() }.message(),
        "Cannot get filename string /"
    );
    assert_eq!(
        TransferError::LeadingSlash { field: PathField::DestinationKey }.message(),
        "Destination key must not begin with /"
    );
    assert_eq!(
        TransferError::MissingETag { part: 7 }.message(),
        "Missing ETag in upload_part response for part 7"
    );
    assert_eq!(
        TransferError::PartUploadFailed { part: -12, detail: "x".to_string() }.message(),
        "Error uploading part -12: x"
    );
    assert_eq!(
        TransferError::PartJoinFailed { part: i32::MIN, detail: "y".to_string() }.message(),
        "Task panicked or failed to join while uploading part -2147483648: y"
    );
    assert_eq!(
        TransferError::HeadObjectFailed { detail: "z".to_string() }.message(),
        "error z"
    );
    assert_eq!(PathField::SourceKey.label(), "Source key");
}
