use fwumious_wabbit::cache::{check_header, new_cache, push_record, read_record, CacheError};
use fwumious_wabbit::frame::{write_frame, Feature};
use fwumious_wabbit::persistence::{
    load_snapshot, save_quantized_snapshot, save_snapshot, Snapshot, SnapshotError,
};

const FP: [u8; 16] = [1, 2, 3, 4, 5, 6, 7, 8, 9, 10, 11, 12, 13, 14, 15, 16];

#[test]
fn cache_write_then_read_gives_same_frames() {
    let frames: Vec<Vec<u32>> = vec![vec![1, 2, 3], vec![], vec![0xDEAD_BEEF]];
    let mut data = new_cache(&FP);
    assert_eq!(data.len(), 24);
    for f in &frames {
        assert_eq!(push_record(&mut data, f), Ok(()));
    }
    assert_eq!(&data[24..28], &[0, 0, 0, 12]);
    assert_eq!(&data[28..32], &[0, 0, 0, 1]);
    let mut pos = check_header(&data, &FP).unwrap();
    let mut back = Vec::new();
    while let Some((f, next)) = read_record(&data, pos).unwrap() {
        back.push(f);
        pos = next;
    }
    assert_eq!(back, frames);
}

#[test]
fn cache_refuses_other_fingerprint_and_truncation() {
    let mut data = new_cache(&FP);
    push_record(&mut data, &[5, 6]).unwrap();
    let mut other = FP;
    other[0] = 99;
    assert_eq!(check_header(&data, &other), Err(CacheError::Incompatible));
    assert_eq!(check_header(&data[..10], &FP), Err(CacheError::Incompatible));
    let cut = &data[..data.len() - 1];
    assert_eq!(read_record(cut, 24), Err(CacheError::Truncated));
    assert_eq!(read_record(&data[..26], 24), Err(CacheError::Truncated));
    assert_eq!(read_record(&data, data.len()), Ok(None));
}

fn snapshot(opt: bool) -> Snapshot {
    Snapshot {
        fingerprint: FP,
        linear: vec![1.5f32.to_bits(), 0],
        ffm: vec![(-2.25f32).to_bits(), 7, 8],
        optimizer_state: if opt { Some(vec![1, 2, 3, 4, 5]) } else { None },
    }
}

#[test]
fn save_load_save_is_identical() {
    for opt in [false, true] {
        let s = snapshot(opt);
        let bytes = save_snapshot(&s).unwrap();
        assert_eq!(&bytes[0..4], &[0x46, 0x57, 0x4d, 0x53]);
        assert_eq!(&bytes[24..36], &[0, 0, 0, 2, 0, 0, 0, 3, 0, 0, 0, opt as u8]);
        let loaded = load_snapshot(&bytes, &FP).unwrap();
        assert_eq!(loaded.linear, s.linear);
        assert_eq!(loaded.ffm, s.ffm);
        assert_eq!(loaded.optimizer_state, s.optimizer_state);
        assert_eq!(save_snapshot(&loaded).unwrap(), bytes);
    }
}

#[test]
fn snapshot_errors() {
    let bytes = save_snapshot(&snapshot(true)).unwrap();
    let mut other = FP;
    other[15] = 0;
    assert!(matches!(load_snapshot(&bytes, &other), Err(SnapshotError::Incompatible)));
    assert!(matches!(load_snapshot(&bytes[..bytes.len() - 4], &FP), Err(SnapshotError::Truncated)));
    let mut bad = snapshot(true);
    bad.optimizer_state = Some(vec![1]);
    assert!(matches!(save_snapshot(&bad), Err(SnapshotError::Malformed)));
    let mut flag = bytes.clone();
    flag[35] = 3;
    assert!(matches!(load_snapshot(&flag, &FP), Err(SnapshotError::Malformed)));
}

#[test]
fn frame_has_one_segment_per_namespace() {
    let segs = vec![
        vec![Feature { hash: 10, value: 1.0f32.to_bits() }],
        vec![],
        vec![Feature { hash: 20, value: 2 }, Feature { hash: 30, value: 3 }],
    ];
    let mut out = vec![42u32; 3];
    write_frame(&mut out, 1.0f32.to_bits(), 1.0f32.to_bits(), &segs);
    assert_eq!(
        out,
        vec![
            1.0f32.to_bits(), 1.0f32.to_bits(),
            0, 1, 10, 1.0f32.to_bits(),
            1, 0,
            2, 2, 20, 2, 30, 3,
        ]
    );
    write_frame(&mut out, 7, 8, &vec![vec![], vec![]]);
    assert_eq!(out, vec![7, 8, 0, 0, 1, 0]);
}

#[test]
fn quantized_snapshot_loads_truncated_ffm_weights() {
    let s = snapshot(true);
    let bytes = save_quantized_snapshot(&s).unwrap();
    assert_eq!(bytes.len(), 36 + 4 * 2 + 3 * 3);
    assert_eq!(bytes[35], 2);
    let loaded = load_snapshot(&bytes, &FP).unwrap();
    assert_eq!(loaded.linear, s.linear);
    assert_eq!(loaded.ffm, vec![(-2.25f32).to_bits() & 0xFFFF_FF00, 0, 0]);
    assert_eq!(loaded.optimizer_state, None);
    assert!(matches!(load_snapshot(&bytes[..bytes.len() - 1], &FP), Err(SnapshotError::Truncated)));
}
