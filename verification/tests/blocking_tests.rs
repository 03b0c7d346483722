use simple_samplerate::error::Error;
use simple_samplerate::filtering::FilteringContext;
use simple_samplerate::sample::{FRAC_HALF, FRAC_ONE};
use simple_samplerate::samplerate::Samplerate;

const Q: i32 = FRAC_ONE;
const EIGHTH: i32 = FRAC_ONE / 8;

fn ramp(n: i32) -> Vec<i32> {
    (1..=n).map(|f| f * Q).collect()
}

#[test]
fn test_stepping() {
    let unit_filter = vec![Q];
    let mut filter = FilteringContext::new(unit_filter.clone(), 1, 6, 4, 1);
    let input = ramp(14);
    let mut output = vec![-Q; 10];
    filter.apply_filters(&input, &mut output, 0);
    let expected: Vec<i32> = [1, 2, 4, 5, 7, 8, 10, 11, 13, 14].iter().map(|f| f * Q).collect();
    assert_eq!(output, expected);

    let mut filter = FilteringContext::new(unit_filter.clone(), 1, 6, 4, 2);
    let mut output = vec![-Q; 10];
    filter.apply_filters(&input, &mut output, 0);
    let expected: Vec<i32> = [1, 2, 3, 4, 7, 8, 9, 10, 13, 14].iter().map(|f| f * Q).collect();
    assert_eq!(output, expected);

    let mut filter = FilteringContext::new(unit_filter, 1, 4, 6, 2);
    let mut output = vec![-Q; 22];
    filter.apply_filters(&input, &mut output, 0);
    let expected: Vec<i32> = [
        1, 2, 1, 2, 3, 4, 5, 6, 5, 6, 7, 8, 9, 10, 9, 10, 11, 12, 13, 14, 13, 14,
    ]
    .iter()
    .map(|f| f * Q)
    .collect();
    assert_eq!(output, expected);
}

fn build_test_input(frames: usize, channels: usize) -> Vec<i32> {
    let mut samples: Vec<i32> = Vec::new();
    for f in 0..frames {
        for c in 0..channels {
            samples.push(f as i32 * Q + c as i32 * EIGHTH);
        }
    }
    samples
}

#[test]
fn test_blocking() {
    let unit_filter = vec![Q];
    let input = build_test_input(20, 2);
    let mut filter = Samplerate::from_filters(unit_filter, 1, 0, 4, 4, 2).unwrap();
    let mut output = vec![-Q; 40];
    let mut out_pos = 0;
    out_pos += filter.process_buffer(&input[0..6], &mut output, out_pos);
    out_pos += filter.process_buffer(&input[6..14], &mut output, out_pos);
    out_pos += filter.process_buffer(&input[14..], &mut output, out_pos);
    assert_eq!(&output[..out_pos], input.as_slice());
}

#[test]
fn test_blocking2() {
    let avg_filter = vec![FRAC_HALF, FRAC_HALF];
    let input = build_test_input(20, 2);
    let mut filter = Samplerate::from_filters(avg_filter, 2, 0, 4, 4, 2).unwrap();
    let mut output = vec![-Q; 38];
    let mut out_pos = 0;
    out_pos += filter.process_buffer(&input[0..6], &mut output, out_pos);
    out_pos += filter.process_buffer(&input[6..14], &mut output, out_pos);
    out_pos += filter.process_buffer(&input[14..], &mut output, out_pos);
    let mut calculated = Vec::new();
    for f in 0..input.len() / 2 - 1 {
        for c in 0..2 {
            calculated.push((input[f * 2 + c] + input[(f + 1) * 2 + c]) / 2);
        }
    }
    assert_eq!(&output[..out_pos], calculated.as_slice());
}

#[test]
fn test_blocking3() {
    let unit_filter = vec![0, Q, 0];
    let input = build_test_input(20, 2);
    let mut filter = Samplerate::from_filters(unit_filter, 3, 0, 4, 4, 2).unwrap();
    let mut output = vec![-Q; 36];
    let mut out_pos = 0;
    out_pos += filter.process_buffer(&input[0..6], &mut output, out_pos);
    out_pos += filter.process_buffer(&input[6..12], &mut output, out_pos);
    out_pos += filter.process_buffer(&input[12..14], &mut output, out_pos);
    out_pos += filter.process_buffer(&input[14..], &mut output, out_pos);
    assert_eq!(&output[..out_pos], &input[2..38]);
}

#[test]
fn test_blocking4() {
    let smooth_filter = vec![Q / 4, FRAC_HALF, Q / 4];
    let input = build_test_input(20, 2);
    let mut filter = Samplerate::from_filters(smooth_filter, 3, 0, 4, 4, 2).unwrap();
    let mut output = vec![-Q; 36];
    let mut out_pos = 0;
    out_pos += filter.process_buffer(&input[0..6], &mut output, out_pos);
    out_pos += filter.process_buffer(&input[6..12], &mut output, out_pos);
    out_pos += filter.process_buffer(&input[12..14], &mut output, out_pos);
    out_pos += filter.process_buffer(&input[14..], &mut output, out_pos);
    assert_eq!(&output[..out_pos], &input[2..38]);
}

#[test]
fn test_filter_offset() {
    let unit_filter = vec![0, Q, 0];
    let input = build_test_input(20, 2);
    let mut filter = Samplerate::from_filters(unit_filter, 3, 1, 4, 4, 2).unwrap();
    let mut output = vec![-Q; 40];
    let mut out_pos = 0;
    out_pos += filter.process_buffer(&input[0..6], &mut output, out_pos);
    out_pos += filter.process_buffer(&input[6..12], &mut output, out_pos);
    out_pos += filter.process_buffer(&input[12..14], &mut output, out_pos);
    out_pos += filter.process_last_buffer(&input[14..], &mut output, out_pos);
    assert_eq!(&output[..out_pos], input.as_slice());
}

#[test]
fn test_filter_sequence() {
    let unit_filter = vec![0, Q, 0, 0, Q, 0, Q, 0, 0];
    let input = build_test_input(20, 2);
    let mut filter = Samplerate::from_filters(unit_filter, 3, 0, 4, 6, 2).unwrap();
    let mut output = vec![-Q; 60];
    let mut out_pos = 0;
    out_pos += filter.process_buffer(&input[0..6], &mut output, out_pos);
    out_pos += filter.process_buffer(&input[6..12], &mut output, out_pos);
    out_pos += filter.process_buffer(&input[12..14], &mut output, out_pos);
    out_pos += filter.process_last_buffer(&input[14..], &mut output, out_pos);
    let mut calculated = Vec::new();
    for f in (1..input.len() / 2).step_by(2) {
        for _ in 0..3 {
            for c in 0..2 {
                println!("{} {}", f, c);
                calculated.push(input[f * 2 + c]);
            }
        }
    }
    assert_eq!(&output[..out_pos], calculated.as_slice());
}

#[test]
fn construction_rejects_bad_config() {
    assert_eq!(Samplerate::new(0, 44100, 2).unwrap_err(), Error::BadRate);
    assert_eq!(Samplerate::new(44100, 0, 2).unwrap_err(), Error::BadRate);
    assert_eq!(Samplerate::new(44100, 48000, 0).unwrap_err(), Error::BadChannels);
    assert_eq!(
        Samplerate::from_filters(vec![Q], 0, 0, 4, 4, 1).unwrap_err(),
        Error::BadFilter
    );
    assert_eq!(
        Samplerate::from_filters(vec![Q, Q, Q], 2, 0, 4, 4, 1).unwrap_err(),
        Error::BadFilter
    );
    assert_eq!(
        Samplerate::from_filters(vec![Q, Q], 2, 2, 4, 4, 1).unwrap_err(),
        Error::BadFilter
    );
    assert_eq!(
        Samplerate::from_filters(vec![Q], 1, 0, 4, 4, usize::MAX / 4).unwrap_err(),
        Error::TooLarge
    );
    assert!(Samplerate::new(44100, 48000, 2).is_ok());
}

#[test]
fn filter_count_follows_rates() {
    // Doubling needs 2 phases, 44100 to 48000 needs 160.
    assert_eq!(Samplerate::filter_count(22050, 44100), 2);
    assert_eq!(Samplerate::filter_count(44100, 48000), 160);
    assert_eq!(Samplerate::filter_count(48000, 48000), 1);
    let conv = Samplerate::new(22050, 44100, 1).unwrap();
    assert_eq!(conv.filtering.filters.len(), 2 * 8);
    let conv = Samplerate::new(44100, 48000, 1).unwrap();
    assert_eq!(conv.filtering.filters.len(), 160 * 8);
}

#[test]
fn resample_round_trip() {
    // A smooth low-frequency wave, resampled up and back down, comes back
    // close to the original apart from the filter's startup region.
    let n = 400usize;
    let input: Vec<i32> = (0..n)
        .map(|i| {
            let phase = (i % 80) as i32;
            let tri = if phase < 40 { phase - 20 } else { 60 - phase };
            tri * (Q / 40)
        })
        .collect();
    let mut up = Samplerate::new(40, 44, 1).unwrap();
    let mut down = Samplerate::new(44, 40, 1).unwrap();
    let mut mid = vec![0i32; n * 2 + 32];
    let m = up.process_last_buffer(&input, &mut mid, 0);
    let mut back = vec![0i32; n * 2 + 64];
    let b = down.process_last_buffer(&mid[..m], &mut back, 0);
    assert!(b >= n);
    // Compare away from both ends; allow a small tolerance for the short
    // sinc approximation.
    let tol = Q / 8;
    for i in 20..n - 20 {
        let diff = (back[i] - input[i]).abs();
        assert!(diff <= tol, "sample {}: {} vs {}", i, back[i], input[i]);
    }
}
