use cooee::asr::SAMPLE_RATE;
use cooee::audio::{max_samples, next_chunk, resampling, take_block, Chunk, Level, Resampling};
use cooee::tone::{envelope, fade_count, sample_count, Tone};
use cooee::vad::{trim, windows, FRAME};

fn rms(frame: &[f32]) -> f32 {
    (frame.iter().map(|s| s * s).sum::<f32>() / frame.len() as f32).sqrt()
}

fn voiced(pcm: &[f32]) -> Vec<bool> {
    pcm.chunks(FRAME).map(|f| rms(f) > 0.005).collect()
}

fn windows_of(pcm: &[f32], max_len: usize) -> Vec<&[f32]> {
    windows(pcm.len(), max_len, |at| rms(&pcm[at..at + FRAME]).to_bits())
        .into_iter()
        .map(|(a, b)| &pcm[a..b])
        .collect()
}

#[test]
fn all_silence_yields_nothing() {
    let pcm = vec![0.0; SAMPLE_RATE as usize];
    assert!(trim(&voiced(&pcm), pcm.len()).is_none());
}

#[test]
fn trims_leading_and_trailing_silence() {
    let mut pcm = vec![0.0f32; SAMPLE_RATE as usize];
    // 200 ms of tone in the middle.
    let mid = pcm.len() / 2;
    for s in &mut pcm[mid..mid + SAMPLE_RATE as usize / 5] {
        *s = 0.5;
    }
    let (start, end) = trim(&voiced(&pcm), pcm.len()).expect("should find speech");
    let trimmed = &pcm[start..end];
    assert!(
        trimmed.len() < pcm.len(),
        "expected trimming to shorten the clip"
    );
    assert!(
        trimmed.len() > SAMPLE_RATE as usize / 5,
        "kept the speech plus hangover"
    );
    // Eight frames either side.
    assert_eq!((start, end), (8_000 - 8 * 320, 8_000 + 3_200 + 8 * 320));
}

#[test]
fn trimming_stops_at_the_ends_of_the_clip() {
    assert_eq!(trim(&[true], 320), Some((0, 320)));
    assert_eq!(trim(&[true, true], 321), Some((0, 321)));
    assert_eq!(trim(&[true], 319), None);
    assert_eq!(trim(&[], 0), None);
}

#[test]
fn windows_cut_at_the_quietest_frame_before_the_limit() {
    let sr = SAMPLE_RATE as usize;
    // 50 s of "speech" with one 200 ms silence at 27 s.
    let mut pcm = vec![0.3f32; 50 * sr];
    for s in &mut pcm[27 * sr..27 * sr + sr / 5] {
        *s = 0.0;
    }
    let w = windows_of(&pcm, 30 * sr);
    assert_eq!(w.len(), 2);
    let cut = w[0].len();
    assert!(cut > 27 * sr && cut < 27 * sr + sr / 5, "cut inside the silence, got {cut}");
    assert_eq!(w[0].len() + w[1].len(), pcm.len());
}

#[test]
fn windows_leave_a_short_clip_whole_and_cap_a_flat_one() {
    let sr = SAMPLE_RATE as usize;
    let short = vec![0.3f32; 10 * sr];
    assert_eq!(windows_of(&short, 30 * sr).len(), 1);
    let flat = vec![0.3f32; 65 * sr];
    let w = windows_of(&flat, 30 * sr);
    assert_eq!(w.len(), 3);
    assert!(w.iter().all(|x| x.len() <= 30 * sr));
    assert_eq!(w.iter().map(|x| x.len()).sum::<usize>(), flat.len());
}

#[test]
fn a_cut_is_the_middle_of_the_first_quietest_frame() {
    // 1000 samples at most; frames at 320 and 640 are searched.
    let first = windows(1_500, 1_000, |at| if at == 640 { 1 } else { 2 });
    assert_eq!(first, vec![(0, 800), (800, 1_500)]);
    let equal = windows(1_500, 1_000, |_| 2);
    assert_eq!(equal, vec![(0, 480), (480, 960), (960, 1_500)]);
    // Too loud to count, or too short to search: at the limit.
    assert_eq!(windows(1_500, 1_000, |_| u32::MAX), vec![(0, 1_000), (1_000, 1_500)]);
    assert_eq!(windows(5, 2, |_| 0), vec![(0, 2), (2, 4), (4, 5)]);
    assert_eq!(windows(0, 0, |_| 0), vec![(0, 0)]);
}

#[test]
fn tone_is_the_requested_length() {
    assert_eq!(sample_count(48_000, 70), 3_360);
}

#[test]
fn start_and_stop_are_distinguishable() {
    assert!(Tone::Start.centihertz() > Tone::Stop.centihertz());
}

#[test]
fn failure_is_unmistakable_by_ear() {
    // Lower than both, so it cannot be mistaken for a normal stop...
    assert!(Tone::Failed.centihertz() < Tone::Stop.centihertz());
    assert!(Tone::Failed.centihertz() < Tone::Start.centihertz());
    // ...and longer, so the two do not have to be told apart by pitch.
    assert!(Tone::Failed.duration_ms() > Tone::Stop.duration_ms());
}

#[test]
fn pitches_are_exact() {
    assert_eq!(Tone::Start.centihertz() as f32 / 100.0, 880.0f32);
    assert_eq!(Tone::Stop.centihertz() as f32 / 100.0, 587.33f32);
    assert_eq!(Tone::Failed.centihertz() as f32 / 100.0, 329.63f32);
    assert_eq!(Tone::Failed.duration_ms(), 180);
    assert_eq!(Tone::Start.duration_ms(), 70);
}

#[test]
fn tones_ramp_up_and_down() {
    assert_eq!(fade_count(48_000), 288);
    assert_eq!(fade_count(100), 1);
    assert_eq!(envelope(0, 3_360, 288), 0);
    assert_eq!(envelope(287, 3_360, 288), 287);
    assert_eq!(envelope(288, 3_360, 288), 288);
    assert_eq!(envelope(3_359, 3_360, 288), 1);
    assert_eq!(envelope(3_072, 3_360, 288), 288);
}

#[test]
fn a_capture_stops_at_five_minutes() {
    assert_eq!(max_samples(48_000), 14_400_000);
    let mut level = Level::default();
    assert!(take_block(&mut level, 10, 2_999));
    assert!(take_block(&mut level, 10, 480));
    assert_eq!(level, Level { len: 3_479, truncated: false });
    assert!(!take_block(&mut level, 10, 480));
    assert_eq!(level, Level { len: 3_479, truncated: true });
}

#[test]
fn the_resampler_gets_the_whole_buffer() {
    assert_eq!(resampling(5, 16_000), Resampling::Copy);
    assert_eq!(resampling(0, 48_000), Resampling::Nothing);
    assert_eq!(resampling(5, 48_000), Resampling::Convert);
    assert_eq!(next_chunk(0, 10, 4), Some(Chunk { start: 0, end: 4, whole: true }));
    assert_eq!(next_chunk(8, 10, 4), Some(Chunk { start: 8, end: 10, whole: false }));
    assert_eq!(next_chunk(6, 10, 4), Some(Chunk { start: 6, end: 10, whole: true }));
    assert_eq!(next_chunk(10, 10, 4), None);
}
