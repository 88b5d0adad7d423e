use search_lambda::s3_util::{copy_source, delete_batches, download_file_name, move_destination, S3Uri};

#[test]
fn batches_of_ten() {
    let keys: Vec<String> = (0..23).map(|i| format!("k{}", i)).collect();
    let b = delete_batches(&keys);
    assert_eq!(b.len(), 3);
    assert_eq!(b[0].len(), 10);
    assert_eq!(b[1].len(), 10);
    assert_eq!(b[2].len(), 3);
    assert_eq!(b.concat(), keys);
}

#[test]
fn batches_exact_and_empty() {
    let keys: Vec<String> = (0..10).map(|i| format!("k{}", i)).collect();
    assert_eq!(delete_batches(&keys), vec![keys.clone()]);
    assert!(delete_batches(&[]).is_empty());
}

#[test]
fn copy_source_joins_bucket_and_key() {
    assert_eq!(copy_source("bucket", "dir/file.avro"), "bucket/dir/file.avro");
}

#[test]
fn move_destination_trims_dir() {
    assert_eq!(move_destination("archive///", "a/b.avro"), "archive/a/b.avro");
    assert_eq!(move_destination("archive", "b"), "archive/b");
}

#[test]
fn download_file_name_uses_last_segment() {
    assert_eq!(download_file_name("a/b/c.avro"), "/tmp/c.avro");
}

#[test]
fn s3_uri_parse() {
    let u = S3Uri::parse("s3://my-bucket/dir/file.avro").unwrap();
    assert_eq!(u.bucket(), "my-bucket");
    assert_eq!(u.path(), "dir/file.avro");
    assert!(S3Uri::parse("not a url").is_none());
}

#[test]
fn s3_uri_from_parts() {
    let u = S3Uri::from_parts(Some("b"), "//x/y").unwrap();
    assert_eq!(u.bucket(), "b");
    assert_eq!(u.path(), "x/y");
    assert!(S3Uri::from_parts(None, "/x").is_none());
}
