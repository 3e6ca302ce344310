use dsp::math::get_perm_val;
use dsp::pitch::{get_difference_in_semitones, get_str_from_letter, LetterOctave, A, B, C, CSH, GSH};
use dsp::settings::Settings;
use dsp::sound_stream_settings::SoundStreamSettings;
use dsp::waveform::Waveform;

#[test]
fn letter_names() {
    assert_eq!(get_str_from_letter(C), "C");
    assert_eq!(get_str_from_letter(CSH), "Csh");
    assert_eq!(get_str_from_letter(B), "B");
    assert_eq!(get_str_from_letter(12), "Letter out of range! Must be between 0 - 11 u8.");
}

#[test]
fn letter_octave_text() {
    let a4 = LetterOctave::new(A, 4);
    assert_eq!(a4.letter(), A);
    assert_eq!(a4.octave(), 4);
    assert_eq!(a4.get_str(), "LetterOctave: A, 4");
    assert_eq!(LetterOctave::new(GSH, -12).get_str(), "LetterOctave: Gsh, -12");
    assert_eq!(LetterOctave::new(C, 1234).get_str(), "LetterOctave: C, 1234");
    assert_eq!(
        LetterOctave::new(C, isize::MIN).get_str(),
        format!("LetterOctave: C, {}", isize::MIN)
    );
}

#[test]
fn semitone_differences() {
    assert_eq!(get_difference_in_semitones(CSH, GSH), -5);
    assert_eq!(get_difference_in_semitones(C, 4), 4);
    assert_eq!(get_difference_in_semitones(B, C), -1);
    assert_eq!(get_difference_in_semitones(A, A), 0);
}

#[test]
fn stream_settings() {
    let s = Settings::cd_quality();
    assert_eq!(s, Settings::new(44100, 256, 2));
    assert_eq!(s.buffer_size(), 512);
    assert_eq!(Settings::default(), s);
    assert_eq!(Settings::new(48000, u16::MAX, u16::MAX).buffer_size(), 65535 * 65535);
    let t = SoundStreamSettings::cd_quality();
    assert_eq!(t, SoundStreamSettings::new(44100, 512, 2));
    assert_eq!(t.buffer_size(), 1024);
    assert_eq!(SoundStreamSettings::default(), t);
}

#[test]
fn permutation_table() {
    assert_eq!(get_perm_val(0), 151);
    assert_eq!(get_perm_val(30), 6);
    assert_eq!(get_perm_val(255), 180);
    assert_eq!(get_perm_val(256), 151);
    assert_eq!(get_perm_val(511), 180);
}

#[test]
fn waveforms_compare() {
    assert_eq!(Waveform::Sine, Waveform::Sine);
    assert_ne!(Waveform::Saw, Waveform::Square);
}
