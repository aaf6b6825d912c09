use soundbox::cache::{blob_path, bucket_ranges, decode, encode, DecodeError, Peaks, BUCKET_SAMPLES};

/// Interleaved test signal: a sine, the second channel at half amplitude.
fn synth(channels: usize, frames: usize) -> Vec<f32> {
    (0..frames * channels)
        .map(|i| ((i / channels) as f32 * 0.01).sin() * if i % channels == 0 { 1.0 } else { 0.5 })
        .collect()
}

/// The waveform summary built from samples, bucket by bucket.
fn build(samples: &[f32], channels: usize, sample_rate: u32) -> Peaks {
    let frames = samples.len() / channels;
    let mut data = vec![Vec::new(); channels];
    for (start, end) in bucket_ranges(frames) {
        for (ch, out) in data.iter_mut().enumerate() {
            let mut lo = 0.0f32;
            let mut hi = 0.0f32;
            for f in start..end {
                let v = samples[f * channels + ch];
                if v < lo {
                    lo = v;
                }
                if v > hi {
                    hi = v;
                }
            }
            let q = |v: f32| (v.clamp(-1.0, 1.0) * i16::MAX as f32) as i16;
            out.push((q(lo), q(hi)));
        }
    }
    Peaks { sample_rate, channels, bucket_samples: BUCKET_SAMPLES, data }
}

#[test]
fn roundtrip_preserves_shape_and_values() {
    for ch in [1usize, 2, 6] {
        let p = build(&synth(ch, 10_000), ch, 48000);
        let back = decode(&encode(&p)).unwrap();
        assert_eq!(back.channels, ch);
        assert_eq!(back.sample_rate, 48000);
        assert_eq!(back.bucket_samples, BUCKET_SAMPLES);
        assert_eq!(back.buckets(), p.buckets());
        assert_eq!(back.data, p.data);
    }
}

#[test]
fn peaks_bracket_the_signal() {
    let samples = synth(2, 10_000);
    let p = build(&samples, 2, 48000);
    let frames = samples.len() / 2;
    for (c, ch) in p.data.iter().enumerate() {
        for (b, (lo, hi)) in ch.iter().enumerate() {
            let (lo, hi) = (*lo as f32 / i16::MAX as f32, *hi as f32 / i16::MAX as f32);
            let start = b * BUCKET_SAMPLES;
            let end = ((b + 1) * BUCKET_SAMPLES).min(frames);
            for i in start..end {
                let v = samples[i * 2 + c];
                assert!(v >= lo - 1e-3 && v <= hi + 1e-3, "sample {v} outside [{lo},{hi}]");
            }
        }
    }
}

#[test]
fn rejects_garbage_and_wrong_version() {
    assert!(decode(b"nope").is_err());
    let mut b = encode(&build(&synth(2, 4096), 2, 48000));
    b[4] = 99;
    assert!(decode(&b).is_err());
}

#[test]
fn blob_path_shards() {
    let p = blob_path("/c", "b3:abcdef");
    assert!(p.ends_with("peaks/ab/cdef.pk"), "{p:?}");
}

#[test]
fn header_layout_is_fixed() {
    let p = Peaks { sample_rate: 44100, channels: 1, bucket_samples: 2048, data: vec![vec![(-1, 2)]] };
    let b = encode(&p);
    assert_eq!(
        b,
        vec![
            b'S', b'B', b'P', b'K', 1, 0, 0x44, 0xac, 0, 0, 1, 0, 0, 8, 0, 0, 1, 0, 0, 0, 0xff, 0xff,
            2, 0
        ]
    );
}

#[test]
fn decode_reports_each_failure() {
    assert_eq!(decode(&[0u8; 10]).err(), Some(DecodeError::NotPeaks));
    let mut b = encode(&Peaks { sample_rate: 1, channels: 2, bucket_samples: 3, data: vec![vec![(0, 0)], vec![(1, 1)]] });
    b[4] = 2;
    assert_eq!(decode(&b).err(), Some(DecodeError::Version(2)));
    b[4] = 1;
    let n = b.len();
    assert_eq!(decode(&b[..n - 1]).err(), Some(DecodeError::Truncated(n - 1, 28)));
}

#[test]
fn bucket_ranges_cover_every_frame() {
    assert_eq!(bucket_ranges(0), vec![(0, 0)]);
    assert_eq!(bucket_ranges(5000), vec![(0, 2048), (2048, 4096), (4096, 5000)]);
    assert_eq!(bucket_ranges(4096), vec![(0, 2048), (2048, 4096)]);
}

#[test]
fn blob_path_without_prefix_and_short_keys() {
    assert_eq!(blob_path("/c", "abcdef"), "/c/peaks/ab/cdef.pk");
    assert_eq!(blob_path("/c/", "b3:a"), "/c/peaks/a/.pk");
}
