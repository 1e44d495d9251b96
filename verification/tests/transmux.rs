use hls2dash::transmux::{
    extend_traf_last_sample, extract_init, extract_media, patch_media_timestamps, patch_moov_duration, read_tfdt,
    read_track_timescales, sum_trun_durations,
};
use std::collections::HashMap;

fn mp4_box(kind: &str, payload: &[u8]) -> Vec<u8> {
    let mut out = ((payload.len() + 8) as u32).to_be_bytes().to_vec();
    out.extend_from_slice(kind.as_bytes());
    out.extend_from_slice(payload);
    out
}

fn words(list: &[u32]) -> Vec<u8> {
    list.iter().flat_map(|w| w.to_be_bytes()).collect()
}

fn joined(parts: &[Vec<u8>]) -> Vec<u8> {
    parts.concat()
}

fn init(track: u32, timescale: u32, duration: u32) -> Vec<u8> {
    let mvhd = mp4_box("mvhd", &words(&[0, 1, 2, 1000, duration, 7]));
    let tkhd = mp4_box("tkhd", &words(&[0, 1, 2, track, 0, duration, 7]));
    let mdhd = mp4_box("mdhd", &words(&[0, 1, 2, timescale, duration, 7]));
    let trak = mp4_box("trak", &joined(&[tkhd, mp4_box("mdia", &mdhd)]));
    joined(&[mp4_box("ftyp", b"isom"), mp4_box("moov", &joined(&[mvhd, trak]))])
}

fn traf(track: u32, time: u32, durations: &[u32]) -> Vec<u8> {
    let mut run = vec![0x100, durations.len() as u32];
    run.extend_from_slice(durations);
    mp4_box(
        "traf",
        &joined(&[
            mp4_box("tfhd", &words(&[0, track])),
            mp4_box("tfdt", &words(&[0, time])),
            mp4_box("trun", &words(&run)),
        ]),
    )
}

fn traf64(track: u32, time: u64, durations: &[u32]) -> Vec<u8> {
    let mut run = vec![0x100, durations.len() as u32];
    run.extend_from_slice(durations);
    mp4_box(
        "traf",
        &joined(&[
            mp4_box("tfhd", &words(&[0, track])),
            mp4_box("tfdt", &words(&[0x0100_0000, (time >> 32) as u32, time as u32])),
            mp4_box("trun", &words(&run)),
        ]),
    )
}

fn moof(trafs: &[Vec<u8>]) -> Vec<u8> {
    mp4_box("moof", &joined(&[vec![mp4_box("mfhd", &words(&[0, 1]))], trafs.to_vec()].concat()))
}

fn mdat() -> Vec<u8> {
    mp4_box("mdat", b"media")
}

#[test]
fn init_and_media_rejoin() {
    let head = init(1, 90000, 540000);
    let body = joined(&[moof(&[traf(1, 90000, &[3000])]), mdat()]);
    let fmp4 = joined(&[head.clone(), body.clone()]);
    assert_eq!(extract_init(&fmp4), Some(head));
    assert_eq!(extract_media(&fmp4), Some(body));
    assert_eq!([extract_init(&fmp4).unwrap(), extract_media(&fmp4).unwrap()].concat(), fmp4);
}

#[test]
fn without_a_moof_there_is_nothing_to_extract() {
    assert_eq!(extract_init(&[]), None);
    assert_eq!(extract_media(&init(1, 90000, 0)), None);
    assert_eq!(extract_init(&[0, 0, 0, 4, b'm', b'd', b'a', b't', 0, 0, 0, 8, b'm', b'o', b'o', b'f']), None);
    assert_eq!(extract_media(&[0, 0, 0, 0, b'm', b'o', b'o', b'f']), Some(vec![0, 0, 0, 0, b'm', b'o', b'o', b'f']));
}

#[test]
fn decode_times_are_read() {
    assert_eq!(read_tfdt(&moof(&[traf(1, 12345, &[])])), Some(12345));
    assert_eq!(read_tfdt(&moof(&[traf64(1, 0x1_0000_0002, &[])])), Some(0x1_0000_0002));
    assert_eq!(read_tfdt(&mdat()), None);
    assert_eq!(read_tfdt(&moof(&[])), None);
    let truncated = mp4_box("moof", &mp4_box("traf", &mp4_box("tfdt", &[0, 0, 0, 0])));
    assert_eq!(read_tfdt(&truncated), None);
}

#[test]
fn durations_are_cleared() {
    assert_eq!(patch_moov_duration(&init(1, 90000, 540000)), init(1, 90000, 0));
    assert_eq!(patch_moov_duration(&[1, 2, 3]), vec![1, 2, 3]);
}

#[test]
fn long_durations_are_cleared() {
    let long = |high: u32, low: u32| mp4_box("moov", &mp4_box("mvhd", &words(&[0x0100_0000, 1, 2, 3, 4, 5, high, low, 9])));
    assert_eq!(patch_moov_duration(&long(1, 2)), long(0, 0));
    let track = |high: u32, low: u32| {
        let tkhd = mp4_box("tkhd", &words(&[0x0100_0000, 1, 2, 3, 4, 5, 6, high, low, 9]));
        mp4_box("moov", &mp4_box("trak", &tkhd))
    };
    assert_eq!(patch_moov_duration(&track(1, 2)), track(0, 0));
}

#[test]
fn timescales_are_read_and_survive_clearing() {
    let head = init(7, 48000, 1000);
    let expected: HashMap<u32, u64> = HashMap::from([(7, 48000)]);
    assert_eq!(read_track_timescales(&head), expected);
    assert_eq!(read_track_timescales(&patch_moov_duration(&head)), expected);
    assert!(read_track_timescales(&mdat()).is_empty());
}

#[test]
fn timescales_of_long_headers() {
    let tkhd = mp4_box("tkhd", &words(&[0x0100_0000, 0, 0, 0, 0, 5]));
    let mdhd = mp4_box("mdhd", &words(&[0x0100_0000, 0, 0, 0, 0, 44100]));
    let trak = mp4_box("trak", &joined(&[tkhd, mp4_box("mdia", &mdhd)]));
    let moov = mp4_box("moov", &trak);
    assert_eq!(read_track_timescales(&moov), HashMap::from([(5, 44100)]));
}

#[test]
fn sample_durations_are_summed() {
    let one = traf(1, 0, &[3000, 3001, 3002]);
    assert_eq!(sum_trun_durations(&one, 0, one.len()), 9003);
    let plain = mp4_box("traf", &mp4_box("trun", &words(&[0, 2, 5, 6])));
    assert_eq!(sum_trun_durations(&plain, 0, plain.len()), 0);
    // Data offset, first sample flags; each entry holds a duration, a size, flags and an offset.
    let full = mp4_box("traf", &mp4_box("trun", &words(&[0xf05, 2, 9, 9, 10, 1, 1, 1, 20, 1, 1, 1])));
    assert_eq!(sum_trun_durations(&full, 0, full.len()), 30);
}

#[test]
fn fragments_are_shifted_together() {
    let media = joined(&[moof(&[traf(1, 90000, &[180000])]), mdat(), moof(&[traf(1, 270000, &[180000])]), mdat()]);
    let timescales = HashMap::from([(1, 90000)]);
    let patched = patch_media_timestamps(&media, &timescales, 12000, 0);
    let expected = joined(&[moof(&[traf(1, 1080000, &[180000])]), mdat(), moof(&[traf(1, 1260000, &[180000])]), mdat()]);
    assert_eq!(patched, expected);
    assert_eq!(read_tfdt(&patched), Some(12000 * 90000 / 1000));
}

#[test]
fn tracks_are_shifted_apart() {
    let media = moof(&[traf(1, 90000, &[]), traf64(2, 48000, &[]), traf(3, 5, &[])]);
    let timescales = HashMap::from([(1, 90000), (2, 48000)]);
    let patched = patch_media_timestamps(&media, &timescales, 2000, 0);
    assert_eq!(patched, moof(&[traf(1, 180000, &[]), traf64(2, 96000, &[]), traf(3, 180000, &[])]));
}

#[test]
fn the_last_sample_fills_the_declared_duration() {
    let media = joined(&[moof(&[traf(1, 0, &[3000, 3000])]), mdat(), moof(&[traf(1, 6000, &[3000, 3000])]), mdat()]);
    let timescales = HashMap::from([(1, 3000)]);
    let patched = patch_media_timestamps(&media, &timescales, 0, 6000);
    let expected = joined(&[moof(&[traf(1, 0, &[3000, 3000])]), mdat(), moof(&[traf(1, 6000, &[3000, 9000])]), mdat()]);
    assert_eq!(patched, expected);
}

#[test]
fn a_full_segment_keeps_its_samples() {
    let media = joined(&[moof(&[traf(1, 0, &[3000, 3000])]), mdat()]);
    let timescales = HashMap::from([(1, 3000)]);
    assert_eq!(patch_media_timestamps(&media, &timescales, 0, 2000), media);
    assert_eq!(patch_media_timestamps(&media, &timescales, 0, 1000), media);
    assert_eq!(patch_media_timestamps(&media, &timescales, 0, 0), media);
    assert_eq!(patch_media_timestamps(&mdat(), &timescales, 5, 5), mdat());
}

#[test]
fn samples_without_durations_are_kept() {
    let plain = mp4_box(
        "traf",
        &joined(&[
            mp4_box("tfhd", &words(&[0, 1])),
            mp4_box("tfdt", &words(&[0, 9])),
            mp4_box("trun", &words(&[0x200, 2, 5, 6])),
        ]),
    );
    let media = moof(&[plain]);
    let patched = patch_media_timestamps(&media, &HashMap::from([(1, 1000)]), 0, 4000);
    assert_eq!(read_tfdt(&patched), Some(0));
    assert_eq!(patched.len(), media.len());
    let tail = media.len() - 16;
    assert_eq!(patched[tail..], media[tail..]);
}

#[test]
fn a_header_too_short_for_a_duration_is_kept() {
    let free = mp4_box("free", &words(&[5, 6, 7]));
    for kind in vec!["mvhd", "mdhd", "tkhd"] {
        let short = mp4_box(kind, &words(&[0, 1]));
        let moov = mp4_box("moov", &joined(&[short, free.clone()]));
        assert_eq!(patch_moov_duration(&moov), moov, "{}", kind);
        let long_version = mp4_box(kind, &words(&[0x0100_0000, 1, 2, 3, 4, 5]));
        let moov = mp4_box("moov", &joined(&[long_version, free.clone(), free.clone()]));
        assert_eq!(patch_moov_duration(&moov), moov, "{}", kind);
    }
}

#[test]
fn clearing_twice_is_clearing_once() {
    let once = patch_moov_duration(&init(1, 90000, 540000));
    assert_eq!(patch_moov_duration(&once), once);
}

#[test]
fn a_decode_time_outside_its_box_is_not_read() {
    let half = mp4_box("tfdt", &words(&[0x0100_0000, 7]));
    let media = joined(&[mp4_box("moof", &mp4_box("traf", &half)), mp4_box("mdat", &[])]);
    assert_eq!(read_tfdt(&media), None);
    let empty = mp4_box("tfdt", &words(&[0]));
    let media = mp4_box("moof", &mp4_box("traf", &joined(&[empty, mp4_box("free", &words(&[1, 2]))])));
    assert_eq!(read_tfdt(&media), None);
}

#[test]
fn a_decode_time_outside_its_box_is_not_written() {
    let tfhd = mp4_box("tfhd", &words(&[0, 1]));
    for tfdt in vec![mp4_box("tfdt", &words(&[0])), mp4_box("tfdt", &words(&[0x0100_0000, 7]))] {
        let media = moof(&[mp4_box("traf", &joined(&[tfhd.clone(), tfdt, mp4_box("free", &words(&[1, 2]))]))]);
        assert_eq!(patch_media_timestamps(&media, &HashMap::from([(1, 90000)]), 2000, 0), media);
    }
}

#[test]
fn a_short_track_header_names_no_track() {
    let short = mp4_box("tfhd", &words(&[0]));
    let tfdt = mp4_box("tfdt", &words(&[0, 9]));
    let media = moof(&[mp4_box("traf", &joined(&[short, tfdt]))]);
    assert_eq!(patch_media_timestamps(&media, &HashMap::new(), 2000, 0), media);

    let mdhd = mp4_box("mdhd", &words(&[0, 1, 2, 48000, 3]));
    let mdia = mp4_box("mdia", &mdhd);
    let no_id = mp4_box("tkhd", &words(&[0, 1, 2]));
    assert!(read_track_timescales(&mp4_box("moov", &mp4_box("trak", &joined(&[no_id, mdia])))).is_empty());
    let tkhd = mp4_box("tkhd", &words(&[0, 1, 2, 7]));
    let no_scale = mp4_box("mdia", &joined(&[mp4_box("mdhd", &words(&[0, 1, 2])), mp4_box("free", &words(&[5]))]));
    assert!(read_track_timescales(&mp4_box("moov", &mp4_box("trak", &joined(&[tkhd, no_scale])))).is_empty());
}

#[test]
fn samples_outside_their_box_are_left_alone() {
    let trun = mp4_box("trun", &words(&[0x100, 1]));
    let mut traf = mp4_box("traf", &joined(&[trun, mp4_box("free", &[])]));
    let before = traf.clone();
    assert_eq!(sum_trun_durations(&traf, 0, traf.len()), 0);
    let end = traf.len();
    extend_traf_last_sample(&mut traf, 0, end, 5);
    assert_eq!(traf, before);
}

#[test]
fn a_moov_cut_off_behind_an_unusable_size_is_readable() {
    let cut = [0, 0, 0, 20, b'm', b'o', b'o', b'v', 0, 0, 0, 0];
    assert!(read_track_timescales(&cut).is_empty());
}

#[test]
fn only_the_last_position_counts() {
    let start = moof(&[traf(1, 90000, &[3000]), traf64(2, 5, &[])]);
    let media = joined(&[start, moof(&[traf(1, 93000, &[3000, 3000])]), mdat()]);
    let timescales = HashMap::from([(1, 90000), (2, 48000)]);
    let once = patch_media_timestamps(&media, &timescales, 4000, 6000);
    let first = patch_media_timestamps(&media, &timescales, 1000, 6000);
    assert_ne!(first, once);
    assert_eq!(patch_media_timestamps(&first, &timescales, 4000, 6000), once);
    assert_eq!(patch_media_timestamps(&once, &timescales, 4000, 6000), once);
}
