use just_voip::audio::decode_pcm;
use just_voip::audio::decode_sample;
use just_voip::audio::encode_pcm;
use just_voip::audio::encode_sample;
use just_voip::audio::expand_channels;
use just_voip::audio::mix;

#[test]
fn pcm_is_little_endian_i16() {
    assert_eq!(encode_pcm(&[1, -1, 256, i16::MIN]), vec![1, 0, 255, 255, 0, 1, 0, 128]);
    for s in [0i16, 1, -1, 300, -300, i16::MAX, i16::MIN] {
        assert_eq!(encode_sample(s), (s.to_le_bytes()[0], s.to_le_bytes()[1]));
        assert_eq!(decode_sample(s.to_le_bytes()[0], s.to_le_bytes()[1]), s);
    }
}

#[test]
fn pcm_round_trip() {
    let samples: Vec<i16> = (-40..40).map(|k: i32| (k * 811) as i16).collect();
    assert_eq!(decode_pcm(&encode_pcm(&samples)), samples);
    assert_eq!(decode_pcm(&[1, 0, 7]), vec![1]);
}

#[test]
fn mix_averages_toward_zero_and_clamps() {
    assert_eq!(mix(&[]), 0);
    assert_eq!(mix(&[10, 20]), 15);
    assert_eq!(mix(&[-3, 0]), -1);
    assert_eq!(mix(&[7]), 7);
    assert_eq!(mix(&[40_000]), 32767);
    assert_eq!(mix(&[-40_000, -40_000]), -32768);
}

#[test]
fn expand_channels_repeats_each_sample() {
    assert_eq!(expand_channels(&[1, 2, 3], 2), vec![1, 1, 2, 2, 3, 3]);
    assert_eq!(expand_channels(&[1, 2], 1), vec![1, 2]);
    assert_eq!(expand_channels(&[], 4), Vec::<i16>::new());
}

#[test]
fn mix_of_many_loud_senders_stays_in_range() {
    let scaled = vec![32768i32; 65535];
    assert_eq!(mix(&scaled), 32767);
    let scaled = vec![-32768i32; 65535];
    assert_eq!(mix(&scaled), -32768);
}
