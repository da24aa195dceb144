use remote_agent::transfer::{temp_path, TransferManager};

#[test]
fn upload_ids_and_temp_path() {
    let mut t: TransferManager<u32> = TransferManager::new();
    assert_eq!(temp_path("/a/b.txt"), "/a/b.txt.tmp");
    let id = t.begin_upload("/a/b.txt".to_string(), 7);
    assert_eq!(id, "up-1");
    assert_eq!(*t.upload_file("up-1").unwrap(), 7);
    let u = t.finish_upload("up-1").unwrap();
    assert_eq!(u.path, "/a/b.txt");
    assert_eq!(u.tmp_path, "/a/b.txt.tmp");
    assert_eq!(u.file, 7);
    assert_eq!(t.finish_upload("up-1").unwrap_err().message, "Unknown upload: up-1");
    assert_eq!(t.upload_file("up-1").unwrap_err().message, "Unknown upload: up-1");
}

#[test]
fn ids_share_one_counter() {
    let mut t: TransferManager<u8> = TransferManager::new();
    assert_eq!(t.begin_upload("x".to_string(), 1), "up-1");
    assert_eq!(t.begin_download(2, 10).transfer_id, "dl-2");
    assert_eq!(t.begin_upload("y".to_string(), 3), "up-3");
    assert_eq!(t.issued_count(), 3);
}

#[test]
fn cancel_is_quiet_for_unknown_ids() {
    let mut t: TransferManager<u8> = TransferManager::new();
    assert!(t.cancel_upload("up-9").is_none());
    let id = t.begin_upload("z".to_string(), 4);
    assert_eq!(t.cancel_upload(&id).map(|u| u.file), Some(4));
    assert!(t.cancel_upload(&id).is_none());
}

#[test]
fn download_chunks_never_pass_the_end() {
    let mut t: TransferManager<u8> = TransferManager::new();
    let info = t.begin_download(5, 10);
    assert_eq!(info.transfer_id, "dl-1");
    assert_eq!(info.file_size, 10);
    let (f, n) = t.download_chunk("dl-1", 4).unwrap();
    assert_eq!((*f, n), (5, 4));
    t.record_sent("dl-1", 4);
    let (_, n) = t.download_chunk("dl-1", 100).unwrap();
    assert_eq!(n, 6);
    t.record_sent("dl-1", 6);
    let (_, n) = t.download_chunk("dl-1", 100).unwrap();
    assert_eq!(n, 0);
    let (_, n) = t.download_chunk("dl-1", 0).unwrap();
    assert_eq!(n, 0);
    assert!(t.finish_download("dl-1").is_some());
    assert_eq!(t.download_chunk("dl-1", 4).unwrap_err().message, "Unknown download: dl-1");
    assert!(t.finish_download("dl-1").is_none());
}

#[test]
fn unknown_download_is_refused_whatever_the_size() {
    let t: TransferManager<u8> = TransferManager::new();
    assert_eq!(t.download_chunk("dl-3", -1).unwrap_err().message, "Unknown download: dl-3");
}

#[test]
fn ids_are_never_reused() {
    let mut t: TransferManager<u32> = TransferManager::new();
    let mut seen = std::collections::HashSet::new();
    for i in 0..200u32 {
        let id = if i % 3 == 0 { t.begin_download(i, 1).transfer_id } else { t.begin_upload(format!("f{}", i), i) };
        assert!(seen.insert(id));
    }
}

#[test]
fn finished_download_is_handed_back() {
    let mut t: TransferManager<u8> = TransferManager::new();
    let info = t.begin_download(7, 9);
    t.record_sent(&info.transfer_id, 3);
    let d = t.finish_download(&info.transfer_id).unwrap();
    assert_eq!((d.file, d.remaining), (7, 6));
}

#[test]
fn short_reads_never_pass_the_end() {
    let mut t: TransferManager<u8> = TransferManager::new();
    let info = t.begin_download(1, 10);
    let (_, n) = t.download_chunk(&info.transfer_id, 4).unwrap();
    assert_eq!(n, 4);
    t.record_sent(&info.transfer_id, 3);
    let (_, n) = t.download_chunk(&info.transfer_id, 100).unwrap();
    assert_eq!(n, 7);
    t.record_sent(&info.transfer_id, 5);
    let (_, n) = t.download_chunk(&info.transfer_id, 100).unwrap();
    assert_eq!(n, 2);
    t.record_sent(&info.transfer_id, 2);
    let (_, n) = t.download_chunk(&info.transfer_id, 5).unwrap();
    assert_eq!(n, 0);
}
