use std::collections::HashMap;

use ct_thumbnail::builder::Action;
use ct_thumbnail::builder::Builder;
use ct_thumbnail::builder::Event;
use ct_thumbnail::codec::decode_slice;
use ct_thumbnail::codec::encode_output;
use ct_thumbnail::codec::PixelBuf;
use ct_thumbnail::kernel::avg_two_u16;
use ct_thumbnail::kernel::avg_two_u8;
use ct_thumbnail::kernel::downscale_half_u16;
use ct_thumbnail::kernel::downscale_half_u8;
use ct_thumbnail::naming::existing_flags;
use ct_thumbnail::naming::output_name;
use ct_thumbnail::plan::levels_needed;
use ct_thumbnail::plan::outputs_in_level;

type Store = HashMap<(usize, u64), Vec<u8>>;

struct RunLog {
    reports: Vec<u32>,
    writes: Vec<(usize, u64)>,
    slice_reads: Vec<usize>,
    readbacks: Vec<(usize, u64)>,
    cancelled: bool,
    failed: bool,
}

fn slice16(w: u32, h: u32, seed: u32) -> Vec<u8> {
    let mut px: Vec<u16> = Vec::new();
    for y in 0..h {
        for x in 0..w {
            px.push(((x * 31 + y * 17 + seed * 101) % 65536) as u16);
        }
    }
    encode_output(&PixelBuf::B16(px), w, h).unwrap()
}

fn slice8(w: u32, h: u32, seed: u32) -> Vec<u8> {
    let mut px: Vec<u8> = Vec::new();
    for y in 0..h {
        for x in 0..w {
            px.push(((x * 7 + y * 13 + seed * 19) % 256) as u8);
        }
    }
    encode_output(&PixelBuf::B8(px), w, h).unwrap()
}

fn flags_from_store(store: &Store, n: usize, levels: usize) -> Vec<Vec<bool>> {
    let mut existing = Vec::new();
    for l in 1..=levels {
        let outs = outputs_in_level(n, l);
        let mut names: Vec<Vec<u8>> = Vec::new();
        for ((lev, idx), _) in store.iter() {
            if *lev == l {
                names.push(output_name(*idx));
            }
        }
        existing.push(existing_flags(&names, outs));
    }
    existing
}

fn drive(
    n: usize,
    w0: u32,
    h0: u32,
    want16: bool,
    slices: &[Vec<u8>],
    store: &mut Store,
    cancel_at_report: Option<usize>,
) -> RunLog {
    let levels = levels_needed(w0, h0);
    let existing = flags_from_store(store, n, levels);
    let mut b = Builder::new(n, w0, h0, levels, want16, existing);
    let mut log = RunLog {
        reports: Vec::new(),
        writes: Vec::new(),
        slice_reads: Vec::new(),
        readbacks: Vec::new(),
        cancelled: false,
        failed: false,
    };
    let mut ev = Event::Start;
    loop {
        match b.next(ev) {
            Action::ReadSlice { slice } => {
                log.slice_reads.push(slice);
                ev = Event::SliceBytes { bytes: slices[slice].clone() };
            },
            Action::ReadOutput { level, index } => {
                log.readbacks.push((level, index));
                ev = Event::OutputBytes { bytes: store.get(&(level, index)).unwrap().clone() };
            },
            Action::WriteOutput { level, index, bytes } => {
                log.writes.push((level, index));
                store.insert((level, index), bytes);
                ev = Event::Written;
            },
            Action::Report { percent_bp, terminal: _ } => {
                log.reports.push(percent_bp);
                let go = match cancel_at_report {
                    Some(k) => log.reports.len() != k,
                    None => true,
                };
                ev = Event::Observer { go };
            },
            Action::Done { cancelled } => {
                log.cancelled = cancelled;
                return log;
            },
            Action::Fail { error: _ } => {
                log.failed = true;
                return log;
            },
        }
    }
}

fn assert_monotone(reports: &[u32]) {
    for w in reports.windows(2) {
        assert!(w[0] <= w[1], "reports fell from {} to {}", w[0], w[1]);
    }
}

// 1008 x 8 slices need two levels: 1008 -> 504 -> 252.
const W: u32 = 1008;
const H: u32 = 8;

fn five_slices() -> Vec<Vec<u8>> {
    (0..5).map(|i| slice16(W, H, i)).collect()
}

#[test]
fn full_run_writes_every_output_once() {
    let slices = five_slices();
    let mut store: Store = Store::new();
    let log = drive(5, W, H, true, &slices, &mut store, None);
    assert!(!log.failed && !log.cancelled);
    // ceil(5/2) + ceil(5/4) outputs
    assert_eq!(store.len(), 5);
    assert_eq!(log.writes.len(), 5);
    assert_eq!(log.reports.first(), Some(&0));
    assert_eq!(log.reports.last(), Some(&10000));
    assert_monotone(&log.reports);
}

#[test]
fn second_run_reads_and_writes_nothing() {
    let slices = five_slices();
    let mut store: Store = Store::new();
    drive(5, W, H, true, &slices, &mut store, None);
    let before = store.clone();
    let log = drive(5, W, H, true, &slices, &mut store, None);
    assert!(!log.failed && !log.cancelled);
    assert!(log.writes.is_empty());
    assert!(log.slice_reads.is_empty());
    assert!(log.readbacks.is_empty());
    assert_eq!(log.reports.last(), Some(&10000));
    assert_monotone(&log.reports);
    assert_eq!(store, before);
}

#[test]
fn deleting_one_output_regenerates_exactly_it() {
    let slices = five_slices();
    let mut store: Store = Store::new();
    drive(5, W, H, true, &slices, &mut store, None);
    let before = store.clone();
    store.remove(&(1, 1)).unwrap();
    let log = drive(5, W, H, true, &slices, &mut store, None);
    assert!(!log.failed && !log.cancelled);
    assert_eq!(log.writes, vec![(1, 1)]);
    assert_eq!(log.reports.last(), Some(&10000));
    assert_eq!(store, before); // same bytes as the uninterrupted run
}

#[test]
fn cancellation_returns_early_and_a_rerun_finishes() {
    let slices = five_slices();
    let mut store: Store = Store::new();
    // report 1 is the starting 0%; cancel on the first mid-run report
    let log = drive(5, W, H, true, &slices, &mut store, Some(2));
    assert!(log.cancelled && !log.failed);
    assert!(store.len() < 5);
    let resumed = drive(5, W, H, true, &slices, &mut store, None);
    assert!(!resumed.failed && !resumed.cancelled);
    assert_eq!(store.len(), 5);
    assert_eq!(resumed.reports.last(), Some(&10000));
    assert_monotone(&resumed.reports);
}

#[test]
fn empty_input_reports_complete_at_once() {
    let mut store: Store = Store::new();
    let log = drive(0, 0, 0, false, &[], &mut store, None);
    assert!(!log.failed && !log.cancelled);
    assert!(log.writes.is_empty() && log.slice_reads.is_empty());
    assert_eq!(log.reports, vec![10000]);
}

#[test]
fn small_slices_report_complete_at_once() {
    // both dimensions at or below 500: no levels, nothing to build
    let mut store: Store = Store::new();
    let slices = vec![slice8(400, 8, 0)];
    let log = drive(1, 400, 8, false, &slices, &mut store, None);
    assert!(!log.failed && !log.cancelled);
    assert!(log.writes.is_empty());
    assert_eq!(log.reports, vec![10000]);
}

#[test]
fn undecodable_slice_aborts() {
    let mut slices = five_slices();
    slices[2] = b"not an image payload".to_vec();
    let mut store: Store = Store::new();
    let log = drive(5, W, H, true, &slices, &mut store, None);
    assert!(log.failed);
}

#[test]
fn mismatched_slice_dimensions_abort() {
    let mut slices = five_slices();
    slices[1] = slice16(504, 8, 1);
    let mut store: Store = Store::new();
    let log = drive(5, W, H, true, &slices, &mut store, None);
    assert!(log.failed);
}

#[test]
fn written_bytes_are_the_reduced_pair() {
    // one group of two 8-bit slices, one level: the output must decode
    // back to exactly merge(downscale(s0), downscale(s1))
    let w: u32 = 520;
    let h: u32 = 8;
    let px0: Vec<u8> = (0..(w * h)).map(|i| (i % 256) as u8).collect();
    let px1: Vec<u8> = (0..(w * h)).map(|i| ((i * 3 + 1) % 256) as u8).collect();
    let s0 = encode_output(&PixelBuf::B8(px0.clone()), w, h).unwrap();
    let s1 = encode_output(&PixelBuf::B8(px1.clone()), w, h).unwrap();
    let mut store: Store = Store::new();
    let log = drive(2, w, h, false, &[s0, s1], &mut store, None);
    assert!(!log.failed);
    assert_eq!(log.writes, vec![(1, 0)]);
    let d0 = downscale_half_u8(&px0, w as usize, h as usize);
    let d1 = downscale_half_u8(&px1, w as usize, h as usize);
    let expected = avg_two_u8(&d0, &d1);
    let (dw, dh, decoded) = decode_slice(store.get(&(1, 0)).unwrap()).unwrap();
    assert_eq!((dw, dh), (w / 2, h / 2));
    match decoded {
        PixelBuf::B8(v) => assert_eq!(v, expected),
        PixelBuf::B16(_) => panic!("expected an 8-bit output"),
    }
}

#[test]
fn encode_rejects_mismatched_buffer_length() {
    let px: Vec<u8> = vec![0; 63]; // one sample short of 8x8
    match encode_output(&PixelBuf::B8(px), 8, 8) {
        Err(ct_thumbnail::error::ThumbError::Dim { expected_w, expected_h, got_w, got_h }) => {
            assert_eq!((expected_w, expected_h, got_w, got_h), (8, 8, 0, 0));
        },
        _ => panic!("expected a dimension mismatch"),
    }
}

#[test]
fn tiff_round_trip_preserves_samples() {
    let px8: Vec<u8> = (0..64u32).map(|i| (i * 4 % 256) as u8).collect();
    let bytes8 = encode_output(&PixelBuf::B8(px8.clone()), 8, 8).unwrap();
    assert_ne!(bytes8, px8); // a real container, not the raw samples
    let (w, h, back) = decode_slice(&bytes8).unwrap();
    assert_eq!((w, h), (8, 8));
    match back {
        PixelBuf::B8(v) => assert_eq!(v, px8),
        PixelBuf::B16(_) => panic!("expected 8-bit"),
    }

    let px16: Vec<u16> = (0..64u32).map(|i| (i * 1021 % 65536) as u16).collect();
    let bytes16 = encode_output(&PixelBuf::B16(px16.clone()), 16, 4).unwrap();
    let (w2, h2, back2) = decode_slice(&bytes16).unwrap();
    assert_eq!((w2, h2), (16, 4));
    match back2 {
        PixelBuf::B16(v) => assert_eq!(v, px16),
        PixelBuf::B8(_) => panic!("expected 16-bit"),
    }
}

#[test]
fn sixteen_bit_pairs_reduce_exactly() {
    let w: u32 = 520;
    let h: u32 = 8;
    let px0: Vec<u16> = (0..(w * h)).map(|i| (i * 17 % 65536) as u16).collect();
    let px1: Vec<u16> = (0..(w * h)).map(|i| (i * 29 % 65536) as u16).collect();
    let s0 = encode_output(&PixelBuf::B16(px0.clone()), w, h).unwrap();
    let s1 = encode_output(&PixelBuf::B16(px1.clone()), w, h).unwrap();
    let mut store: Store = Store::new();
    let log = drive(2, w, h, true, &[s0, s1], &mut store, None);
    assert!(!log.failed);
    let d0 = downscale_half_u16(&px0, w as usize, h as usize);
    let d1 = downscale_half_u16(&px1, w as usize, h as usize);
    let expected = avg_two_u16(&d0, &d1);
    let (_, _, decoded) = decode_slice(store.get(&(1, 0)).unwrap()).unwrap();
    match decoded {
        PixelBuf::B16(v) => assert_eq!(v, expected),
        PixelBuf::B8(_) => panic!("expected a 16-bit output"),
    }
}

#[test]
fn mixed_depth_slices_rescale_to_the_first() {
    // the first slice fixes a 16-bit run; the 8-bit second slice is
    // rescaled up by a factor of 256 before use
    let w: u32 = 520;
    let h: u32 = 8;
    let px0: Vec<u16> = (0..(w * h)).map(|i| (i * 11 % 65536) as u16).collect();
    let px1_8: Vec<u8> = (0..(w * h)).map(|i| (i % 256) as u8).collect();
    let s0 = encode_output(&PixelBuf::B16(px0.clone()), w, h).unwrap();
    let s1 = encode_output(&PixelBuf::B8(px1_8.clone()), w, h).unwrap();
    let mut store: Store = Store::new();
    let log = drive(2, w, h, true, &[s0, s1], &mut store, None);
    assert!(!log.failed);
    let px1_16: Vec<u16> = px1_8.iter().map(|&x| (x as u16) << 8).collect();
    let d0 = downscale_half_u16(&px0, w as usize, h as usize);
    let d1 = downscale_half_u16(&px1_16, w as usize, h as usize);
    let expected = avg_two_u16(&d0, &d1);
    let (_, _, decoded) = decode_slice(store.get(&(1, 0)).unwrap()).unwrap();
    match decoded {
        PixelBuf::B16(v) => assert_eq!(v, expected),
        PixelBuf::B8(_) => panic!("expected a 16-bit output"),
    }
}
