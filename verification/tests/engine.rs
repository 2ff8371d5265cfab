use std::sync::Arc;

use disk_engine::cache::FileCache;
use disk_engine::fs::{alloc_decision, AllocAction, AllocEvent, IoKind, MemFs};
use disk_engine::hashing::hash_to_id;
use disk_engine::info::{FileEntry, Info};
use disk_engine::job::{
    free_space_bytes, join_path, move_decision, session_path, with_temp, Config, Ctx, JobRes,
    MoveAction, MoveEvent, Request, Response,
};

fn test_config() -> Config {
    Config { session: b"/sess".to_vec(), directory: b"/dl".to_vec() }
}

fn two_piece_info(piece0: &[u8], piece1: &[u8]) -> Info {
    Info {
        piece_len: 16384,
        total_len: 32768,
        hashes: vec![
            openssl::sha::sha1(piece0).to_vec(),
            openssl::sha::sha1(piece1).to_vec(),
        ],
        files: vec![FileEntry { path: b"file.bin".to_vec(), length: 32768 }],
    }
}

#[test]
fn piece_round_trip() {
    let piece0 = vec![0u8; 16384];
    let piece1 = vec![0xFFu8; 16384];
    let info = Arc::new(two_piece_info(&piece0, &piece1));
    let cfg = test_config();
    let mut fs = MemFs::new();
    let mut fc = FileCache::new(16);
    let mut net = Vec::new();

    for (idx, data) in [(0u32, piece0.clone()), (1u32, piece1.clone())] {
        let locs = Info::piece_disk_locs(&info, idx);
        let r = Request::write(1, data, locs, None).execute(&mut fc, &mut fs, &cfg, 1, &mut net);
        assert!(matches!(r, Ok(JobRes::Done)));
    }

    for idx in [0u32, 1u32] {
        let req = Request::validate_piece(1, info.clone(), None, idx);
        match req.execute(&mut fc, &mut fs, &cfg, 1, &mut net) {
            Ok(JobRes::Resp(Response::PieceValidated { tid, piece, valid })) => {
                assert_eq!(tid, 1);
                assert_eq!(piece, idx);
                assert!(valid);
            },
            _ => panic!("expected PieceValidated"),
        }
    }

    // corrupt one byte of piece 0 and revalidate
    let path = join_path(&cfg.directory, &b"file.bin".to_vec());
    fs.write_range(&path, false, 0, 5, &[0x01]);
    let req = Request::validate_piece(1, info.clone(), None, 0);
    match req.execute(&mut fc, &mut fs, &cfg, 1, &mut net) {
        Ok(JobRes::Resp(Response::PieceValidated { valid, .. })) => assert!(!valid),
        _ => panic!("expected PieceValidated"),
    }
    // the untouched piece still verifies
    let req = Request::validate_piece(1, info, None, 1);
    match req.execute(&mut fc, &mut fs, &cfg, 1, &mut net) {
        Ok(JobRes::Resp(Response::PieceValidated { valid, .. })) => assert!(valid),
        _ => panic!("expected PieceValidated"),
    }
}

#[test]
fn read_returns_written_bytes() {
    let piece0 = (0..16384).map(|i| (i % 251) as u8).collect::<Vec<u8>>();
    let piece1 = vec![0u8; 16384];
    let info = Arc::new(two_piece_info(&piece0, &piece1));
    let cfg = test_config();
    let mut fs = MemFs::new();
    let mut fc = FileCache::new(16);
    let mut net = Vec::new();

    let locs = Info::piece_disk_locs(&info, 0);
    let r = Request::write(1, piece0.clone(), locs, None)
        .execute(&mut fc, &mut fs, &cfg, 1, &mut net);
    assert!(matches!(r, Ok(JobRes::Done)));

    let locs = Info::piece_disk_locs(&info, 0);
    let ctx = Ctx::new(3, 1, 0, 0, 16384);
    let req = Request::read(ctx, vec![0u8; 16384], locs, None);
    match req.execute(&mut fc, &mut fs, &cfg, 1, &mut net) {
        Ok(JobRes::Resp(Response::Read { context, data })) => {
            assert_eq!(context.pid, 3);
            assert_eq!(data.as_slice(), piece0.as_slice());
        },
        _ => panic!("expected Read response"),
    }
}

#[test]
fn read_missing_file_is_not_found() {
    let info = Arc::new(two_piece_info(&[0u8; 16384], &[0u8; 16384]));
    let cfg = test_config();
    let mut fs = MemFs::new();
    let mut fc = FileCache::new(16);
    let mut net = Vec::new();
    let locs = Info::piece_disk_locs(&info, 0);
    let req = Request::read(Ctx::new(3, 1, 0, 0, 16384), vec![0u8; 16384], locs, None);
    match req.execute(&mut fc, &mut fs, &cfg, 1, &mut net) {
        Err(IoKind::NotFound) => {},
        _ => panic!("expected NotFound"),
    }
}

#[test]
fn read_past_end_is_io_error() {
    let mut fs = MemFs::new();
    let path = b"/short".to_vec();
    fs.write_range(&path, false, 0, 0, b"abc");
    match fs.read_range(&path, 2, 5) {
        Err(IoKind::Io) => {},
        _ => panic!("expected Io"),
    }
}

#[test]
fn serialize_writes_under_hex_hash_and_leaves_no_temp() {
    let cfg = test_config();
    let mut fs = MemFs::new();
    let mut fc = FileCache::new(4);
    let mut net = Vec::new();
    let hash = vec![0xABu8; 20];
    let r = Request::serialize(1, b"abc".to_vec(), hash.clone())
        .execute(&mut fc, &mut fs, &cfg, 1, &mut net);
    assert!(matches!(r, Ok(JobRes::Done)));

    let spath = session_path(&cfg.session, &hash);
    assert_eq!(
        String::from_utf8_lossy(&spath),
        "/sess/abababababababababababababababababababab"
    );
    assert_eq!(fs.read_range(&spath, 0, 3).unwrap(), b"abc".to_vec());
    assert!(!fs.exists_file(&with_temp(&spath)));
}

#[test]
fn serialize_interrupted_before_rename_leaves_final_untouched() {
    // the write phase touches only the .temp name; stopping there
    // leaves no (possibly corrupt) final file
    let cfg = test_config();
    let mut fs = MemFs::new();
    let hash = vec![0x01u8; 20];
    let spath = session_path(&cfg.session, &hash);
    fs.write_range(&with_temp(&spath), false, 0, 0, b"abc");
    assert!(!fs.exists_file(&spath));
    assert!(fs.exists_file(&with_temp(&spath)));
}

#[test]
fn delete_removes_session_files_and_artifacts() {
    let cfg = test_config();
    let mut fs = MemFs::new();
    let mut fc = FileCache::new(4);
    let mut net = Vec::new();
    let hash = vec![0x42u8; 20];
    let spath = session_path(&cfg.session, &hash);
    let mut tpath = spath.clone();
    tpath.extend_from_slice(b".torrent");
    let fpath = join_path(&cfg.directory, &b"top/a.bin".to_vec());
    fs.write_range(&spath, false, 0, 0, b"resume");
    fs.write_range(&tpath, false, 0, 0, b"meta");
    fs.write_range(&fpath, false, 0, 0, b"data");

    let r = Request::delete(1, hash, vec![b"top/a.bin".to_vec()], None, true)
        .execute(&mut fc, &mut fs, &cfg, 1, &mut net);
    assert!(matches!(r, Ok(JobRes::Done)));
    assert!(!fs.exists_file(&spath));
    assert!(!fs.exists_file(&tpath));
    assert!(!fs.exists_file(&fpath));
}

#[test]
fn move_renames_target_and_answers_moved() {
    let cfg = test_config();
    let mut fs = MemFs::new();
    let mut fc = FileCache::new(4);
    let mut net = Vec::new();
    let fp = join_path(&b"/a".to_vec(), &b"t".to_vec());
    fs.write_range(&fp, false, 0, 0, b"payload");
    let req = Request::Move {
        tid: 2,
        from: b"/a".to_vec(),
        to: b"/b".to_vec(),
        target: b"t".to_vec(),
    };
    match req.execute(&mut fc, &mut fs, &cfg, 1, &mut net) {
        Ok(JobRes::Resp(Response::Moved { tid, path })) => {
            assert_eq!(tid, 2);
            assert_eq!(path, b"/b".to_vec());
        },
        _ => panic!("expected Moved"),
    }
    assert!(!fs.exists_file(&fp));
    let tp = join_path(&b"/b".to_vec(), &b"t".to_vec());
    assert_eq!(fs.read_range(&tp, 0, 7).unwrap(), b"payload".to_vec());
}

#[test]
fn cross_filesystem_move_decisions() {
    // a rename refused across filesystems falls back to copy, then
    // removes the source; a failed copy cleans up the destination
    assert!(matches!(move_decision(&MoveEvent::RenameOk), MoveAction::Finish));
    assert!(matches!(
        move_decision(&MoveEvent::RenameErr(IoKind::CrossDevice)),
        MoveAction::TryCopy
    ));
    assert!(matches!(
        move_decision(&MoveEvent::RenameErr(IoKind::NoSpace)),
        MoveAction::Fail(IoKind::NoSpace)
    ));
    assert!(matches!(move_decision(&MoveEvent::CopyOk), MoveAction::RemoveSrc));
    assert!(matches!(move_decision(&MoveEvent::CopyErr), MoveAction::RemoveDstAndFail));
    assert!(matches!(move_decision(&MoveEvent::RemoveSrcOk), MoveAction::Finish));
    assert!(matches!(
        move_decision(&MoveEvent::RemoveSrcErr(IoKind::Io)),
        MoveAction::Fail(IoKind::Io)
    ));
}

#[test]
fn move_of_missing_target_fails_not_found() {
    let cfg = test_config();
    let mut fs = MemFs::new();
    let mut fc = FileCache::new(4);
    let mut net = Vec::new();
    let req = Request::Move {
        tid: 2,
        from: b"/a".to_vec(),
        to: b"/b".to_vec(),
        target: b"t".to_vec(),
    };
    match req.execute(&mut fc, &mut fs, &cfg, 1, &mut net) {
        Err(IoKind::NotFound) => {},
        _ => panic!("expected NotFound"),
    }
}

fn four_piece_info(content: &[u8], wrong_piece: usize) -> Info {
    let mut hashes = Vec::new();
    for p in 0..4 {
        let mut h = openssl::sha::sha1(&content[p * 4..p * 4 + 4]).to_vec();
        if p == wrong_piece {
            h[0] ^= 0xFF;
        }
        hashes.push(h);
    }
    Info {
        piece_len: 4,
        total_len: 16,
        hashes,
        files: vec![FileEntry { path: b"small.bin".to_vec(), length: 16 }],
    }
}

fn run_validation(info: Arc<Info>, budget: u32) -> (u32, Vec<u32>) {
    let cfg = test_config();
    let mut fs = MemFs::new();
    let mut fc = FileCache::new(4);
    let mut net = Vec::new();
    let content: Vec<u8> = (0..16).map(|i| i as u8).collect();
    let path = join_path(&cfg.directory, &b"small.bin".to_vec());
    fs.write_range(&path, false, 0, 0, &content);

    let mut req = Request::validate(7, info, None);
    let mut updates = 0u32;
    let mut last_done = 0u32;
    loop {
        match req.execute(&mut fc, &mut fs, &cfg, budget, &mut net) {
            Ok(JobRes::Resp(Response::ValidationComplete { tid, invalid })) => {
                assert_eq!(tid, 7);
                return (updates, invalid);
            },
            Ok(JobRes::Update(next, Response::ValidationUpdate { tid, done, total })) => {
                assert_eq!(tid, 7);
                assert_eq!(total, 4);
                // progress never goes backwards
                assert!(done >= last_done);
                assert!(done <= total);
                last_done = done;
                updates += 1;
                req = next;
            },
            _ => panic!("unexpected validation result"),
        }
    }
}

#[test]
fn validation_time_slicing_is_invisible_in_the_result() {
    let content: Vec<u8> = (0..16).map(|i| i as u8).collect();
    let info = Arc::new(four_piece_info(&content, 2));
    let (updates_sliced, invalid_sliced) = run_validation(info.clone(), 1);
    let (updates_whole, invalid_whole) = run_validation(info, 1000);
    assert!(updates_sliced >= 2);
    assert_eq!(updates_whole, 0);
    assert_eq!(invalid_sliced, vec![2]);
    assert_eq!(invalid_whole, vec![2]);
}

#[test]
fn free_space_multiplies_fragments_by_blocks() {
    assert_eq!(free_space_bytes(4096, 10), 40960);
    assert_eq!(free_space_bytes(0, 123), 0);
}

#[test]
fn freespace_request_has_no_answer_in_the_model_store() {
    let cfg = test_config();
    let mut fs = MemFs::new();
    let mut fc = FileCache::new(4);
    let mut net = Vec::new();
    match Request::FreeSpace.execute(&mut fc, &mut fs, &cfg, 1, &mut net) {
        Err(IoKind::Stat) => {},
        _ => panic!("expected Stat"),
    }
}

#[test]
fn cache_evicts_least_recently_used_at_capacity() {
    let mut fc = FileCache::new(2);
    assert!(fc.touch(&b"/a".to_vec(), true).is_none());
    assert!(fc.touch(&b"/b".to_vec(), false).is_none());
    // touching /a refreshes it, so /b is now the oldest
    assert!(fc.touch(&b"/a".to_vec(), false).is_none());
    let evicted = fc.touch(&b"/c".to_vec(), false).expect("eviction at capacity");
    assert_eq!(evicted.path, b"/b".to_vec());
    assert!(evicted.dirty == false);
    assert!(fc.entries.len() <= 2);
}

#[test]
fn cache_flush_clears_dirty_once() {
    let mut fc = FileCache::new(2);
    fc.touch(&b"/a".to_vec(), true);
    assert!(fc.flush_file(&b"/a".to_vec()));
    assert!(!fc.flush_file(&b"/a".to_vec()));
    assert!(!fc.flush_file(&b"/missing".to_vec()));
}

#[test]
fn hash_to_id_is_lower_case_hex() {
    let hash: Vec<u8> = vec![
        0x01, 0x23, 0x45, 0x67, 0x89, 0xAB, 0xCD, 0xEF, 0x00, 0xFF, 0x10, 0x2F, 0x30, 0x4E,
        0x55, 0x66, 0x77, 0x88, 0x99, 0xAA,
    ];
    let id = hash_to_id(&hash);
    assert_eq!(
        String::from_utf8_lossy(&id),
        "0123456789abcdef00ff102f304e5566778899aa"
    );
}

#[test]
fn requests_know_their_torrent() {
    let req = Request::serialize(5, b"x".to_vec(), vec![0u8; 20]);
    assert_eq!(req.tid(), Some(5));
    assert!(req.concurrent());
    let info = Arc::new(two_piece_info(&[0u8; 16384], &[0u8; 16384]));
    let v = Request::validate(6, info, None);
    assert_eq!(v.tid(), Some(6));
    assert!(!v.concurrent());
    assert_eq!(Request::Ping.tid(), None);
    assert_eq!(Response::error(4, IoKind::Io).tid(), 4);
    assert_eq!(Response::moved(3, b"/b".to_vec()).tid(), 3);
}

#[test]
fn allocation_outcomes_drive_the_right_actions() {
    assert!(matches!(alloc_decision(&AllocEvent::Allocated), AllocAction::Done));
    assert!(matches!(alloc_decision(&AllocEvent::Unsupported), AllocAction::FallbackSetLen));
    assert!(matches!(alloc_decision(&AllocEvent::NoSys), AllocAction::FallbackSetLen));
    assert!(matches!(
        alloc_decision(&AllocEvent::NoSpace),
        AllocAction::Fail(IoKind::NoSpace)
    ));
    assert!(matches!(alloc_decision(&AllocEvent::Interrupted), AllocAction::Retry));
    assert!(matches!(alloc_decision(&AllocEvent::Failed), AllocAction::Fail(IoKind::Io)));
}

#[test]
fn multi_file_piece_spans_both_files() {
    // a piece that straddles two files is tiled contiguously across them
    let content: Vec<u8> = (0..16).map(|i| i as u8).collect();
    let mut hashes = Vec::new();
    for p in 0..4 {
        hashes.push(openssl::sha::sha1(&content[p * 4..p * 4 + 4]).to_vec());
    }
    let info = Info {
        piece_len: 4,
        total_len: 16,
        hashes,
        files: vec![
            FileEntry { path: b"a.bin".to_vec(), length: 6 },
            FileEntry { path: b"b.bin".to_vec(), length: 10 },
        ],
    };
    let locs = Info::piece_disk_locs(&info, 1);
    assert_eq!(locs.len(), 2);
    assert_eq!(locs[0].file, 0);
    assert_eq!(locs[0].offset, 4);
    assert_eq!((locs[0].start, locs[0].end), (0, 2));
    assert_eq!(locs[1].file, 1);
    assert_eq!(locs[1].offset, 0);
    assert_eq!((locs[1].start, locs[1].end), (2, 4));

    // writing the pieces into both files and validating them all passes
    let cfg = test_config();
    let mut fs = MemFs::new();
    let mut fc = FileCache::new(4);
    let mut net = Vec::new();
    let info = Arc::new(info);
    for p in 0..4u32 {
        let locs = Info::piece_disk_locs(&info, p);
        let data = content[p as usize * 4..p as usize * 4 + 4].to_vec();
        let r = Request::write(1, data, locs, None).execute(&mut fc, &mut fs, &cfg, 1, &mut net);
        assert!(matches!(r, Ok(JobRes::Done)));
    }
    for p in 0..4u32 {
        let req = Request::validate_piece(1, info.clone(), None, p);
        match req.execute(&mut fc, &mut fs, &cfg, 1, &mut net) {
            Ok(JobRes::Resp(Response::PieceValidated { valid, .. })) => assert!(valid),
            _ => panic!("expected PieceValidated"),
        }
    }
}

#[test]
fn move_carries_every_file_and_leaves_none_behind() {
    let cfg = test_config();
    let mut fs = MemFs::new();
    let mut fc = FileCache::new(4);
    let mut net = Vec::new();
    let x = join_path(&b"/a".to_vec(), &b"t/x.bin".to_vec());
    let y = join_path(&b"/a".to_vec(), &b"t/sub/y.bin".to_vec());
    // a sibling whose name merely starts with the target's bytes
    let sibling = join_path(&b"/a".to_vec(), &b"tx".to_vec());
    fs.write_range(&x, false, 0, 0, b"one");
    fs.write_range(&y, false, 0, 0, b"two");
    fs.write_range(&sibling, false, 0, 0, b"stay");

    let req = Request::Move {
        tid: 2,
        from: b"/a".to_vec(),
        to: b"/b".to_vec(),
        target: b"t".to_vec(),
    };
    match req.execute(&mut fc, &mut fs, &cfg, 1, &mut net) {
        Ok(JobRes::Resp(Response::Moved { tid, path })) => {
            assert_eq!(tid, 2);
            assert_eq!(path, b"/b".to_vec());
        },
        _ => panic!("expected Moved"),
    }
    assert!(!fs.exists_file(&x));
    assert!(!fs.exists_file(&y));
    let nx = join_path(&b"/b".to_vec(), &b"t/x.bin".to_vec());
    let ny = join_path(&b"/b".to_vec(), &b"t/sub/y.bin".to_vec());
    assert_eq!(fs.read_range(&nx, 0, 3).unwrap(), b"one".to_vec());
    assert_eq!(fs.read_range(&ny, 0, 3).unwrap(), b"two".to_vec());
    // the sibling was not under the moved directory
    assert_eq!(fs.read_range(&sibling, 0, 4).unwrap(), b"stay".to_vec());
}

#[test]
fn serialize_over_stale_temp_yields_exactly_the_data() {
    // a longer .temp left by an interrupted earlier attempt must not
    // leak its tail into the freshly serialized file
    let cfg = test_config();
    let mut fs = MemFs::new();
    let mut fc = FileCache::new(4);
    let mut net = Vec::new();
    let hash = vec![0x0Cu8; 20];
    let spath = session_path(&cfg.session, &hash);
    fs.write_range(&with_temp(&spath), false, 0, 0, b"stale");

    let r = Request::serialize(1, b"abc".to_vec(), hash)
        .execute(&mut fc, &mut fs, &cfg, 1, &mut net);
    assert!(matches!(r, Ok(JobRes::Done)));
    assert_eq!(fs.read_range(&spath, 0, 3).unwrap(), b"abc".to_vec());
    assert!(matches!(fs.read_range(&spath, 0, 4), Err(IoKind::Io)));
    assert!(!fs.exists_file(&with_temp(&spath)));
}

#[test]
fn move_to_occupied_destination_is_an_error() {
    let cfg = test_config();
    let mut fs = MemFs::new();
    let mut fc = FileCache::new(4);
    let mut net = Vec::new();
    let fp = join_path(&b"/a".to_vec(), &b"t".to_vec());
    let tp = join_path(&b"/b".to_vec(), &b"t".to_vec());
    fs.write_range(&fp, false, 0, 0, b"source");
    fs.write_range(&tp, false, 0, 0, b"already there");
    let req = Request::Move {
        tid: 2,
        from: b"/a".to_vec(),
        to: b"/b".to_vec(),
        target: b"t".to_vec(),
    };
    match req.execute(&mut fc, &mut fs, &cfg, 1, &mut net) {
        Err(IoKind::Io) => {},
        _ => panic!("expected Io"),
    }
    // nothing moved
    assert_eq!(fs.read_range(&fp, 0, 6).unwrap(), b"source".to_vec());
    assert_eq!(fs.read_range(&tp, 0, 13).unwrap(), b"already there".to_vec());
}

#[test]
fn cache_remembers_an_allocation_attempt() {
    let mut fc = FileCache::new(2);
    fc.touch(&b"/a".to_vec(), true);
    assert!(!fc.is_allocated(&b"/a".to_vec()));
    fc.note_allocated(&b"/a".to_vec());
    assert!(fc.is_allocated(&b"/a".to_vec()));
    // eviction forgets the flag with the handle
    fc.touch(&b"/b".to_vec(), false);
    fc.touch(&b"/c".to_vec(), false);
    assert!(!fc.is_allocated(&b"/a".to_vec()));
}
