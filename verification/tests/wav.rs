//! The WAV writer and what it does to a sample.
use waveroll::quantise::quantise;
use waveroll::tempo::Meter;
use waveroll::wav::{
    capture_bext, chunk, fixed, noise, write_acid, write_bext, Acid, Bext, Depth, Lcg, WavMeta,
    WavSpec,
};

fn bits(samples: &[f32]) -> Vec<u32> {
    samples.iter().map(|s| s.to_bits()).collect()
}

/// Finds a chunk's body. A deliberately naive walker: if the writer's padding is wrong this
/// desynchronises and the test fails, which is the point.
fn find<'a>(wav: &'a [u8], id: &[u8; 4]) -> Option<&'a [u8]> {
    let mut at = 12;
    while at + 8 <= wav.len() {
        let this = &wav[at..at + 4];
        let size = u32::from_le_bytes(wav[at + 4..at + 8].try_into().ok()?) as usize;
        if this == id {
            return wav.get(at + 8..at + 8 + size);
        }
        at += 8 + size + (size % 2);
    }
    None
}

fn u16_at(b: &[u8], at: usize) -> u16 { u16::from_le_bytes(b[at..at + 2].try_into().unwrap()) }
fn u32_at(b: &[u8], at: usize) -> u32 { u32::from_le_bytes(b[at..at + 4].try_into().unwrap()) }

#[test]
fn the_riff_header_describes_the_file_that_follows() {
    let left = [0.0f32, 0.5, -0.5, 1.0];
    let right = [0.25f32, -0.25, 0.0, -1.0];
    let wav = waveroll::wav::write(&[&bits(&left), &bits(&right)], &WavSpec::new(48_000, Depth::F32), &WavMeta::none());

    assert_eq!(&wav[0..4], b"RIFF");
    assert_eq!(&wav[8..12], b"WAVE");
    assert_eq!(
        u32_at(&wav, 4) as usize,
        wav.len() - 8,
        "the RIFF size must cover everything after itself"
    );

    let fmt = find(&wav, b"fmt ").expect("fmt is mandatory");
    assert_eq!(fmt.len(), 18, "a non-PCM fmt chunk carries cbSize");
    assert_eq!(u16_at(fmt, 0), 3, "WAVE_FORMAT_IEEE_FLOAT");
    assert_eq!(u16_at(fmt, 2), 2, "channels");
    assert_eq!(u32_at(fmt, 4), 48_000);
    assert_eq!(u32_at(fmt, 8), 48_000 * 2 * 4, "byte rate");
    assert_eq!(u16_at(fmt, 12), 8, "block align");
    assert_eq!(u16_at(fmt, 14), 32, "bits");

    let fact = find(&wav, b"fact").expect("float files need a fact chunk");
    assert_eq!(u32_at(fact, 0), 4, "four frames");
}

#[test]
fn float_samples_round_trip_exactly_and_interleaved() {
    let left = [0.0f32, 0.5, -0.5, 1.0];
    let right = [0.25f32, -0.25, 0.0, -1.0];
    let wav = waveroll::wav::write(&[&bits(&left), &bits(&right)], &WavSpec::new(48_000, Depth::F32), &WavMeta::none());
    let data = find(&wav, b"data").expect("data is mandatory");
    assert_eq!(data.len(), 4 * 2 * 4);
    let read: Vec<f32> =
        data.chunks_exact(4).map(|b| f32::from_le_bytes(b.try_into().unwrap())).collect();
    assert_eq!(read, vec![0.0, 0.25, 0.5, -0.25, -0.5, 0.0, 1.0, -1.0]);
}

#[test]
fn full_scale_survives_every_depth() {
    for depth in [Depth::F32, Depth::I24, Depth::I16] {
        let mut spec = WavSpec::new(48_000, depth);
        spec.dither = false;
        let peaks = [1.0f32, -1.0];
        let wav = waveroll::wav::write(&[&bits(&peaks)], &spec, &WavMeta::none());
        let data = find(&wav, b"data").expect("data is mandatory");
        match depth {
            Depth::F32 => {
                assert_eq!(f32::from_le_bytes(data[0..4].try_into().unwrap()), 1.0);
                assert_eq!(f32::from_le_bytes(data[4..8].try_into().unwrap()), -1.0);
            }
            Depth::I16 => {
                assert_eq!(i16::from_le_bytes(data[0..2].try_into().unwrap()), 32_767);
                assert_eq!(i16::from_le_bytes(data[2..4].try_into().unwrap()), -32_768);
            }
            Depth::I24 => {
                let first = i32::from_le_bytes([data[0], data[1], data[2], 0]) << 8 >> 8;
                let second = i32::from_le_bytes([data[3], data[4], data[5], 0]) << 8 >> 8;
                assert_eq!(first, 8_388_607);
                assert_eq!(second, -8_388_608);
            }
        }
    }
}

#[test]
fn dither_is_deterministic_and_only_one_lsb() {
    let quiet: Vec<f32> = (0..512).map(|i| (i as f32 / 512.0 - 0.5) * 1e-4).collect();
    let spec = WavSpec::new(48_000, Depth::I16);
    assert!(spec.dither, "16-bit should dither by default");
    let a = waveroll::wav::write(&[&bits(&quiet)], &spec, &WavMeta::none());
    let b = waveroll::wav::write(&[&bits(&quiet)], &spec, &WavMeta::none());
    assert_eq!(a, b, "a seeded writer must be byte-identical run to run");

    let mut plain = spec;
    plain.dither = false;
    let c = waveroll::wav::write(&[&bits(&quiet)], &plain, &WavMeta::none());
    assert_ne!(a, c, "dither that changes nothing is not dither");

    let dithered = find(&a, b"data").unwrap();
    let truncated = find(&c, b"data").unwrap();
    for (d, t) in dithered.chunks_exact(2).zip(truncated.chunks_exact(2)) {
        let d = i16::from_le_bytes(d.try_into().unwrap()) as i32;
        let t = i16::from_le_bytes(t.try_into().unwrap()) as i32;
        assert!((d - t).abs() <= 1, "dither moved a sample by {} LSB", (d - t).abs());
    }
}

#[test]
fn the_acid_chunk_says_what_the_audio_actually_is() {
    // Four bars of 4/4 at 120 BPM is eight seconds and sixteen quarter notes.
    let frames = 8 * 48_000;
    let silence = vec![0.0f32; frames];
    let acid = Acid { tempo: 120.0f32.to_bits(), quarters: 16, meter: Meter::four_four(), root: None };
    let wav = waveroll::wav::write(
        &[&bits(&silence)],
        &WavSpec::new(48_000, Depth::F32),
        &WavMeta { acid: Some(acid), bext: None },
    );
    let body = find(&wav, b"acid").expect("acid chunk missing");
    assert_eq!(body.len(), 24, "the layout is fixed at 24 bytes");
    assert_eq!(u32_at(body, 0) & 0x01, 0, "a loop must not be flagged one-shot");
    assert_eq!(u32_at(body, 0) & 0x04, 0x04, "stretch must be on or the host will not warp it");
    assert_eq!(u32_at(body, 12), 16, "quarters");
    assert_eq!(u16_at(body, 16), 4, "meter denominator");
    assert_eq!(u16_at(body, 18), 4, "meter numerator");
    assert_eq!(f32::from_le_bytes(body[20..24].try_into().unwrap()), 120.0);

    // The chunk and the audio must agree, or the host warps the file to the wrong length.
    let stated = u32_at(body, 12) as f64 * 60.0 / 120.0;
    assert!((stated - frames as f64 / 48_000.0).abs() < 1e-9);
}

#[test]
fn the_bext_chunk_is_602_bytes_before_its_history() {
    let silence = [0.0f32; 8];
    let bext = Bext {
        description: "Waveroll capture".into(),
        originator: "Waveroll".into(),
        date: "2026-08-21".into(),
        time: "14:32:07".into(),
        time_reference: 0x1_0000_0002,
        coding_history: "A=PCM,F=48000,W=32,M=mono\r\n".into(),
        ..Bext::default()
    };
    let wav = waveroll::wav::write(
        &[&bits(&silence)],
        &WavSpec::new(48_000, Depth::F32),
        &WavMeta { acid: None, bext: Some(bext.clone()) },
    );
    let body = find(&wav, b"bext").expect("bext chunk missing");
    assert_eq!(body.len(), 602 + bext.coding_history.len());
    assert_eq!(&body[0..16], b"Waveroll capture");
    assert_eq!(&body[256..264], b"Waveroll");
    assert_eq!(&body[320..330], b"2026-08-21");
    assert_eq!(&body[330..338], b"14:32:07");
    // The timestamp is split across two 32-bit words, low first, and a writer that dropped the
    // high one would place anything past 13 hours at 48 kHz in the wrong place.
    assert_eq!(u32_at(body, 338), 2, "TimeReferenceLow");
    assert_eq!(u32_at(body, 342), 1, "TimeReferenceHigh");
    assert_eq!(u16_at(body, 346), 1, "version");
    assert_eq!(&body[602..], b"A=PCM,F=48000,W=32,M=mono\r\n");
}

#[test]
fn an_odd_length_chunk_is_padded_so_later_chunks_stay_aligned() {
    let silence = [0.0f32; 4];
    let bext = Bext { coding_history: "odd".into(), ..Bext::default() };
    let wav = waveroll::wav::write(
        &[&bits(&silence)],
        &WavSpec::new(48_000, Depth::F32),
        &WavMeta { acid: Some(Acid {
            tempo: 90.0f32.to_bits(), quarters: 4, meter: Meter::four_four(), root: Some(69),
        }), bext: Some(bext) },
    );
    // acid follows the odd-length bext; finding it at all proves the pad byte is there.
    let body = find(&wav, b"acid").expect("acid was lost behind an unpadded chunk");
    assert_eq!(f32::from_le_bytes(body[20..24].try_into().unwrap()), 90.0);
    assert_eq!(u32_at(body, 0) & 0x02, 0x02, "root note flag");
    assert_eq!(u16_at(body, 4), 69);
    assert!(find(&wav, b"data").is_some(), "data was lost too");
}

/// One sample in floating point: scaled, dithered, rounded, clamped.
fn in_floats(value: f32, width: u32, draws: Option<(u64, u64)>) -> i32 {
    let scale = (1u32 << width) as f32;
    let mut scaled = f64::from(value) * f64::from(scale);
    if let Some((a, b)) = draws {
        let unit = |draw: u64| draw as f64 / (1u64 << 53) as f64;
        scaled += unit(a) + unit(b) - 1.0;
    }
    let limit = 1i64 << width;
    (scaled.round() as i64).clamp(-limit, limit - 1) as i32
}

#[test]
fn quantising_in_integers_is_quantising_in_floats() {
    let mut generator = Lcg::new(0x5EED);
    let specials = [
        0.0f32, -0.0, 1.0, -1.0, 0.5, -0.5, 1.5, -2.0, f32::MIN_POSITIVE, f32::MAX, f32::MIN,
        f32::INFINITY, f32::NEG_INFINITY, f32::NAN, 1.0e-40, -1.0e-40, 1.0 / 65536.0,
        -1.0 / 65536.0, 3.0 / 65536.0, 1.0 / 16777216.0, -3.0 / 16777216.0, 0.999_999_94,
        -0.999_999_94, 1.0e-9, 255.5,
    ];
    for width in [15u32, 23] {
        for value in specials {
            assert_eq!(quantise(value.to_bits(), width, None), in_floats(value, width, None));
            for _ in 0..200 {
                let (a, b) = (generator.unit(), generator.unit());
                assert_eq!(
                    quantise(value.to_bits(), width, Some(noise(a, b))),
                    in_floats(value, width, Some((a, b))),
                    "{value} with {a} and {b} at {width}"
                );
            }
            for (a, b) in [(0, 0), (0, 1), ((1 << 53) - 1, (1 << 53) - 1), (1 << 52, 1 << 52)] {
                assert_eq!(
                    quantise(value.to_bits(), width, Some(noise(a, b))),
                    in_floats(value, width, Some((a, b)))
                );
            }
        }
        for _ in 0..20_000 {
            let raw = (generator.unit() >> 21) as u32;
            let value = f32::from_bits(raw);
            let (a, b) = (generator.unit(), generator.unit());
            assert_eq!(quantise(raw, width, None), in_floats(value, width, None));
            assert_eq!(
                quantise(raw, width, Some(noise(a, b))),
                in_floats(value, width, Some((a, b)))
            );
            // The same mantissas around full scale, where rounding does the most.
            let near = f32::from_bits((raw & 0x80FF_FFFF) | 0x3700_0000);
            assert_eq!(
                quantise(near.to_bits(), width, Some(noise(a, b))),
                in_floats(near, width, Some((a, b)))
            );
        }
    }
}

#[test]
fn exact_values_of_a_few_samples() {
    assert_eq!(quantise(0.5f32.to_bits(), 15, None), 16_384);
    assert_eq!(quantise((-1.0f32).to_bits(), 23, None), -8_388_608);
    assert_eq!(quantise(2.0f32.to_bits(), 15, None), 32_767);
    assert_eq!(quantise(f32::NAN.to_bits(), 15, None), 0);
    // Halves round away from zero.
    assert_eq!(quantise((1.0f32 / 65536.0).to_bits(), 15, None), 1);
    assert_eq!(quantise((-1.0f32 / 65536.0).to_bits(), 15, None), -1);
    assert_eq!(noise(0, 0), -(1i64 << 53));
    assert_eq!(noise(1 << 52, 1 << 52), 0);
    assert_eq!(noise((1 << 53) - 1, (1 << 53) - 1), (1i64 << 53) - 2);
}

#[test]
fn the_one_draw_that_spans_two_steps() {
    let half = (1.0f32 / 65536.0).to_bits();
    assert_eq!(quantise(half, 15, None), 1);
    assert_eq!(quantise(half, 15, Some(noise(0, 0))), -1);
    assert_eq!(quantise(half, 15, Some(noise(0, 1))), 0);
}

#[test]
fn the_generator_is_reproducible() {
    let mut a = Lcg::new(7);
    let mut b = Lcg::new(7);
    let first = a.unit();
    assert_eq!(first, b.unit());
    assert_eq!(a.unit(), b.unit());
    let state = 7u64.wrapping_mul(6364136223846793005).wrapping_add(1442695040888963407);
    assert_eq!(first, state >> 11);
    assert_eq!(Lcg::new(6).unit(), first, "an even seed is made odd");
}

#[test]
fn depths_state_their_widths() {
    let widths: Vec<(u16, usize, u16)> = [Depth::F32, Depth::I24, Depth::I16]
        .iter()
        .map(|d| (d.bits(), d.bytes(), d.format_tag()))
        .collect();
    assert_eq!(widths, vec![(32, 4, 3), (24, 3, 1), (16, 2, 1)]);
    assert!(!WavSpec::new(48_000, Depth::I24).dither);
    assert!(!WavSpec::new(48_000, Depth::F32).dither);
}

#[test]
fn an_integer_file_has_a_plain_format_chunk_and_no_fact() {
    let samples = bits(&[0.25, -0.25, 0.5]);
    let spec = WavSpec { dither: false, ..WavSpec::new(44_100, Depth::I24) };
    let wav = waveroll::wav::write(&[&samples], &spec, &WavMeta::none());
    let fmt = find(&wav, b"fmt ").unwrap();
    assert_eq!(fmt.len(), 16);
    assert_eq!(u16_at(fmt, 0), 1);
    assert_eq!(u16_at(fmt, 12), 3, "block align");
    assert_eq!(u16_at(fmt, 14), 24, "bits");
    assert!(find(&wav, b"fact").is_none());
    let data = find(&wav, b"data").unwrap();
    assert_eq!(data, &[0, 0, 0x20, 0, 0, 0xE0, 0, 0, 0x40]);
    assert_eq!(wav.len() % 2, 0, "an odd data chunk is padded");
    assert_eq!(u32_at(&wav, 4) as usize, wav.len() - 8);
}

#[test]
fn chunks_are_framed_and_padded() {
    let mut out = vec![9];
    chunk(&mut out, *b"abcd", vec![1, 2, 3]);
    assert_eq!(out, vec![9, b'a', b'b', b'c', b'd', 3, 0, 0, 0, 1, 2, 3, 0]);
    chunk(&mut out, *b"efgh", vec![]);
    assert_eq!(&out[13..], &[b'e', b'f', b'g', b'h', 0, 0, 0, 0]);
}

#[test]
fn fixed_fields_are_padded_or_cut() {
    let mut out = Vec::new();
    fixed(&mut out, "ab", 4);
    fixed(&mut out, "abcdef", 3);
    fixed(&mut out, "a\u{e9}\tb", 3);
    assert_eq!(out, b"ab\0\0abcab\0");
}

#[test]
fn metadata_bodies_have_their_layout() {
    let mut out = Vec::new();
    write_bext(&mut out, &Bext::default());
    assert_eq!(out.len(), 602);
    let mut out = Vec::new();
    let acid = Acid { tempo: 0, quarters: 3, meter: Meter { num: 6, den: 8 }, root: Some(60) };
    write_acid(&mut out, &acid);
    assert_eq!(out.len(), 24);
    assert_eq!(u32_at(&out, 0), 0x02 | 0x04);
    assert_eq!(u16_at(&out, 4), 60);
    assert_eq!(u16_at(&out, 6), 0x8000);
    assert_eq!(u32_at(&out, 12), 3);
    assert_eq!((u16_at(&out, 16), u16_at(&out, 18)), (8, 6));
}

#[test]
fn a_captured_file_says_what_it_holds() {
    let bext = capture_bext(48_000, 2, 123);
    assert_eq!(bext.description, "Waveroll capture");
    assert_eq!(bext.originator, "Waveroll");
    assert_eq!(bext.time_reference, 123);
    assert_eq!(bext.coding_history, "A=PCM,F=48000,W=32,M=stereo\r\n");
    assert!(bext.originator_reference.is_empty() && bext.date.is_empty() && bext.time.is_empty());
    assert_eq!(capture_bext(0, 1, 0).coding_history, "A=PCM,F=0,W=32,M=mono\r\n");
    for rate in [9, 10, 99, 100, 8_000, 768_000, u32::MAX] {
        let expected = format!("A=PCM,F={rate},W=32,M=mono\r\n");
        assert_eq!(capture_bext(rate, 1, 0).coding_history, expected);
    }
}
