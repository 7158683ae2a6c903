use flowergal::audio::{split_sample, AudioDriver, AudioError, RuntimeSoundData, NUM_CHANNELS};
use flowergal::driver::Driver;
use flowergal::raw_pcm::RawPcm8;
use flowergal::sound_info::{Sound, PLAYBUF_SIZE};

fn leak(v: Vec<u8>) -> &'static [u8] {
    Box::leak(v.into_boxed_slice())
}

fn raw(len: usize, seed: u8) -> Sound {
    Sound::RawPcm8(leak((0..len).map(|i| (i as u8).wrapping_mul(3).wrapping_add(seed)).collect()))
}

/// A valid encoded stream of `frames` constant frames of 16 samples each.
fn music(value: u8, frames: usize) -> Sound {
    let mut bytes: Vec<u8> = vec![0x66, 0x4C, 0x61, 0x43, 0x80, 0, 0, 34];
    let total = (16 * frames) as u64;
    let mut info = vec![0u8; 34];
    info[0] = 0;
    info[1] = 16;
    info[2] = 0;
    info[3] = 16;
    // sample rate 31536 (20 bits), 1 channel, 8-bit depth, total samples (36 bits)
    let packed: u64 = (31536u64 << 44) | (0u64 << 41) | (7u64 << 36) | total;
    info[10..18].copy_from_slice(&packed.to_be_bytes());
    bytes.extend(info);
    for _ in 0..frames {
        // sync, block-size code 6 with explicit size 16, frame number 0, crc8
        bytes.extend([0xFF, 0xF8, 0x60, 0x00, 0x00, 0x0F, 0x00]);
        // constant subframe, then the 8-bit value, then the crc16
        bytes.extend([0x00, value, 0x00, 0x00]);
    }
    Sound::Flac(leak(bytes))
}

fn remaining(d: &AudioDriver) -> Vec<u64> {
    d.channels().iter().map(|c| c.remaining_samples()).collect()
}

fn output_after_mix(d: &mut AudioDriver) -> (Vec<i8>, Vec<i8>) {
    d.mixer();
    d.dsound_vblank();
    let (a, b) = d.prev_playbufs();
    (a.clone(), b.clone())
}

#[test]
fn split_boundary_values() {
    assert_eq!(split_sample(0), (0, 0));
    assert_eq!(split_sample(0xFF00), (-1, -1));
    assert_eq!(split_sample(0xFF80), (-1, 0));
    assert_eq!(split_sample(0x0180), (1, 2));
    assert_eq!(split_sample(0x017F), (1, 1));
    assert_eq!(split_sample(-0x80), (-1, 0));
    assert_eq!(split_sample(0x7F80), (127, -128));
}

#[test]
fn split_steps_by_at_most_one() {
    for v in (-70000i32..70000).step_by(37) {
        let (a, b) = split_sample(v);
        assert_eq!(a, (v >> 8) as i8);
        let d = b as i32 - a as i32;
        assert!(d == 0 || d == 1 || (a == 127 && b == -128));
    }
}

#[test]
fn raw_source_adds_widened_samples() {
    let mut r = RawPcm8::new(leak(vec![1, 0xFF, 0x80, 2]), false);
    let mut buf = vec![10, 10, 10];
    r.mix_into(&mut buf, false);
    assert_eq!(buf, vec![10 + 256, 10 - 256, 10 - 128 * 256]);
    assert_eq!(r.remaining_samples(), 1);
    let mut rest = vec![0, 0];
    r.mix_into(&mut rest, false);
    assert_eq!(rest, vec![512, 0]);
    assert!(r.finished());
}

#[test]
fn looping_raw_source_restarts() {
    let mut r = RawPcm8::new(leak(vec![1, 2]), true);
    let mut buf = vec![0, 0];
    r.mix_into(&mut buf, false);
    let mut again = vec![0];
    r.mix_into(&mut again, false);
    assert_eq!(again, vec![256]);
    assert_eq!(r.remaining_samples(), 1);
}

#[test]
fn play_sfx_fills_free_slots() {
    let mut d = AudioDriver::new();
    assert_eq!(d.play_sfx(&raw(700, 1)), Ok(()));
    assert_eq!(d.play_sfx(&raw(900, 2)), Ok(()));
    assert_eq!(remaining(&d), vec![700, 900]);
    assert_eq!(d.music_index(), None);
}

#[test]
fn eviction_picks_fewest_remaining() {
    let mut d = AudioDriver::new();
    let sounds = [raw(1000, 1), raw(600, 2), raw(800, 3), raw(600, 4)];
    for s in sounds.iter() {
        assert_eq!(d.play_sfx(s), Ok(()));
    }
    assert_eq!(d.channels().len(), NUM_CHANNELS);
    let newcomer = raw(50, 9);
    assert_eq!(d.play_sfx(&newcomer), Ok(()));
    assert_eq!(remaining(&d), vec![1000, 600, 800, 50]);
    assert!(d.channels()[1].same_asset(&sounds[3]));
    assert!(d.channels()[3].same_asset(&newcomer));
    assert!(!d.channels().iter().any(|c| c.same_asset(&sounds[1])));
}

#[test]
fn eviction_spares_looping_channels() {
    let mut d = AudioDriver::new();
    assert_eq!(d.play_sfx(&raw(100, 1)), Ok(()));
    for v in 1..4u8 {
        assert_eq!(d.play_sfx(&music(v, 2)), Ok(()));
    }
    assert_eq!(d.play_sfx(&raw(5000, 7)), Ok(()));
    assert_eq!(d.channels().iter().filter(|c| c.looping()).count(), 3);
    assert_eq!(remaining(&d)[3], 5000);
    assert!(d.channels()[0].looping());
}

#[test]
fn full_pool_of_looping_channels_rejects() {
    let mut d = AudioDriver::new();
    for v in 1..5u8 {
        assert_eq!(d.play_sfx(&music(v, 2)), Ok(()));
    }
    let before = remaining(&d);
    assert_eq!(d.play_sfx(&raw(10, 1)), Err(AudioError::NoRoom));
    assert_eq!(remaining(&d), before);
    assert!(d.channels()[0].same_asset(&music(1, 2)));
}

#[test]
fn bad_asset_is_reported() {
    let mut d = AudioDriver::new();
    let bad = Sound::Flac(leak(b"RIFF0000".to_vec()));
    assert!(matches!(d.play_sfx(&bad), Err(AudioError::Decode(_))));
    assert_eq!(d.channels().len(), 0);
}

#[test]
fn same_music_is_not_restarted() {
    let mut d = AudioDriver::new();
    let song = music(3, 4);
    assert_eq!(d.set_bgm(&song), Ok(()));
    d.mixer();
    let played = remaining(&d);
    assert_eq!(d.set_bgm(&song), Ok(()));
    assert_eq!(remaining(&d), played);
    assert_eq!(d.music_index(), Some(0));
}

#[test]
fn other_music_replaces_the_old() {
    let mut d = AudioDriver::new();
    assert_eq!(d.play_sfx(&raw(3000, 1)), Ok(()));
    assert_eq!(d.set_bgm(&music(3, 4)), Ok(()));
    assert_eq!(d.play_sfx(&raw(3000, 2)), Ok(()));
    let next = music(9, 4);
    assert_eq!(d.set_bgm(&next), Ok(()));
    assert_eq!(d.channels().len(), 3);
    let i = d.music_index().unwrap();
    assert!(d.channels()[i].same_asset(&next));
    assert_eq!(d.channels().iter().filter(|c| c.looping()).count(), 1);
}

#[test]
fn music_index_follows_swapped_channel() {
    let mut d = AudioDriver::new();
    assert_eq!(d.play_sfx(&raw(10, 1)), Ok(()));
    assert_eq!(d.play_sfx(&raw(5000, 2)), Ok(()));
    let song = music(4, 40);
    assert_eq!(d.set_bgm(&song), Ok(()));
    assert_eq!(d.music_index(), Some(2));
    d.mixer();
    assert_eq!(d.channels().len(), 2);
    assert_eq!(d.music_index(), Some(0));
    assert!(d.channels()[0].same_asset(&song));
}

#[test]
fn music_on_full_looping_pool_is_rejected() {
    let mut d = AudioDriver::new();
    for v in 1..5u8 {
        assert_eq!(d.play_sfx(&music(v, 2)), Ok(()));
    }
    assert_eq!(d.set_bgm(&music(8, 2)), Err(AudioError::NoRoom));
    assert_eq!(d.music_index(), None);
}

#[test]
fn mixer_retires_finished_channels() {
    let mut d = AudioDriver::new();
    assert_eq!(d.play_sfx(&raw(100, 1)), Ok(()));
    assert_eq!(d.play_sfx(&raw(PLAYBUF_SIZE + 10, 2)), Ok(()));
    d.mixer();
    assert_eq!(remaining(&d), vec![10]);
    d.mixer();
    assert_eq!(d.channels().len(), 0);
}

#[test]
fn finished_channels_do_not_change_the_mix() {
    let effect = raw(PLAYBUF_SIZE + 40, 5);
    let mut alone = AudioDriver::new();
    assert_eq!(alone.play_sfx(&effect), Ok(()));
    let expected = output_after_mix(&mut alone);

    let mut crowded = AudioDriver::new();
    assert_eq!(crowded.play_sfx(&raw(0, 1)), Ok(()));
    assert_eq!(crowded.play_sfx(&effect), Ok(()));
    assert_eq!(crowded.play_sfx(&raw(0, 2)), Ok(()));
    assert_eq!(crowded.play_sfx(&raw(0, 3)), Ok(()));
    assert_eq!(output_after_mix(&mut crowded), expected);
    assert_eq!(crowded.channels().len(), 1);
}

#[test]
fn mixer_output_is_the_split_sum() {
    let mut d = AudioDriver::new();
    assert_eq!(d.play_sfx(&Sound::RawPcm8(leak(vec![1, 2, 0xFF]))), Ok(()));
    assert_eq!(d.play_sfx(&Sound::RawPcm8(leak(vec![1, 0x80]))), Ok(()));
    let (a, b) = output_after_mix(&mut d);
    assert_eq!(&a[..4], &[2, -126, -1, 0]);
    assert_eq!(a, b);
    assert!(a[4..].iter().all(|&x| x == 0));
}

#[test]
fn music_overwrites_the_accumulation() {
    let mut d = AudioDriver::new();
    assert_eq!(d.play_sfx(&Sound::RawPcm8(leak(vec![1; 20]))), Ok(()));
    assert_eq!(d.set_bgm(&music(3, 4)), Ok(()));
    let (a, _) = output_after_mix(&mut d);
    assert!(a[..16].iter().all(|&x| x == 0));
    assert!(a[16..20].iter().all(|&x| x == 1));
}

#[test]
fn scheduler_alternates_buffer_pairs() {
    let mut d = AudioDriver::new();
    assert_eq!(d.play_sfx(&raw(3 * PLAYBUF_SIZE, 1)), Ok(()));
    d.mixer();
    assert_eq!(d.dsound_vblank(), 0);
    let shown = d.prev_playbufs().0.clone();
    d.mixer();
    assert_eq!(d.prev_playbufs().0, &shown);
    assert_eq!(d.dsound_vblank(), 1);
    assert_ne!(d.prev_playbufs().0, &shown);
    assert_eq!(d.dsound_vblank(), 0);
    assert_eq!(d.prev_playbufs().0, &shown);
}

#[test]
fn runtime_sound_from_assets() {
    let r = RuntimeSoundData::from_sound(&raw(3, 0)).ok().unwrap();
    assert!(!r.looping());
    assert_eq!(r.remaining_samples(), 3);
    let f = RuntimeSoundData::from_sound(&music(1, 2)).ok().unwrap();
    assert!(f.looping());
    assert_eq!(f.remaining_samples(), 32);
    assert!(f.same_asset(&music(1, 2)));
    assert!(!f.same_asset(&music(2, 2)));
}

#[test]
fn driver_owns_the_engine() {
    let mut drv = Driver::new();
    assert_eq!(drv.audio().play_sfx(&raw(4, 0)), Ok(()));
    assert_eq!(drv.audio().channels().len(), 1);
    let _ = drv.timer();
}

#[test]
fn music_role_writes_over_effects() {
    let mut d = AudioDriver::new();
    assert_eq!(d.play_sfx(&Sound::RawPcm8(leak(vec![1; 20]))), Ok(()));
    assert_eq!(d.set_bgm(&Sound::RawPcm8(leak(vec![2; 10]))), Ok(()));
    let (a, _) = output_after_mix(&mut d);
    assert!(a[..10].iter().all(|&x| x == 2));
    assert!(a[10..20].iter().all(|&x| x == 1));
}

#[test]
fn stream_effect_adds_to_the_mix() {
    let mut d = AudioDriver::new();
    assert_eq!(d.play_sfx(&Sound::RawPcm8(leak(vec![1; 20]))), Ok(()));
    assert_eq!(d.play_sfx(&music(0, 4)), Ok(()));
    let (a, _) = output_after_mix(&mut d);
    assert!(a[..20].iter().all(|&x| x == 1));
}

#[test]
fn mixer_keeps_live_channels() {
    let mut d = AudioDriver::new();
    assert_eq!(d.play_sfx(&raw(5, 1)), Ok(()));
    let song = music(4, 40);
    assert_eq!(d.set_bgm(&song), Ok(()));
    assert_eq!(d.play_sfx(&raw(3000, 2)), Ok(()));
    d.mixer();
    assert_eq!(d.channels().len(), 2);
    assert_eq!(remaining(&d), vec![3000 - PLAYBUF_SIZE as u64, 40 * 16 - 16]);
    assert_eq!(d.music_index(), Some(1));
    assert!(d.channels()[1].same_asset(&song));
}
