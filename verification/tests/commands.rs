use clawcam::audio::{listen_command, shell_escape, speak_command, validate_message, MessageError};
use clawcam::media::{clip_command, snapshot_is_fresh};

#[test]
fn escape_single_quotes() {
    assert_eq!(shell_escape("it's"), "it'\\''s");
    assert_eq!(shell_escape("plain"), "plain");
    assert_eq!(shell_escape("''"), "'\\'''\\''");
    assert_eq!(shell_escape(""), "");
}

#[test]
fn control_characters_are_refused() {
    assert!(validate_message("hello\nworld\tok").is_ok());
    assert_eq!(validate_message("bell\u{7}"), Err(MessageError::ControlCharacters));
    assert_eq!(validate_message("nul\0"), Err(MessageError::ControlCharacters));
    assert!(validate_message("café").is_ok());
    assert_eq!(validate_message("del\u{7f}"), Err(MessageError::ControlCharacters));
    assert_eq!(validate_message("c1\u{85}"), Err(MessageError::ControlCharacters));
    assert!(validate_message("nbsp\u{a0}").is_ok());
}

#[test]
fn speak_command_text() {
    let c = speak_command("it's me", 250).unwrap();
    assert_eq!(
        c,
        "command -v piper >/dev/null 2>&1 && echo 'it'\\''s me' | piper --output_raw | aplay -r 22050 -f S16_LE -c 1 || command -v espeak-ng >/dev/null 2>&1 && espeak-ng -a 100 'it'\\''s me' || espeak -a 100 'it'\\''s me'"
    );
    let c = speak_command("hi", 7).unwrap();
    assert!(c.contains("espeak-ng -a 7 'hi'"));
    assert_eq!(speak_command("a\rb", 50), Err(MessageError::ControlCharacters));
}

#[test]
fn listen_and_clip_commands() {
    assert_eq!(listen_command(5), "arecord -d 5 -f S16_LE -r 16000 -c 1 '/tmp/clawcam_audio.wav'");
    assert_eq!(clip_command(10), "clawcam _clip --dur 10 --out /tmp/clawcam_clip.mp4");
    assert_eq!(clip_command(0), "clawcam _clip --dur 0 --out /tmp/clawcam_clip.mp4");
    assert_eq!(clip_command(4294967295), "clawcam _clip --dur 4294967295 --out /tmp/clawcam_clip.mp4");
}

#[test]
fn latest_frame_freshness() {
    assert!(snapshot_is_fresh(9_999_999_999));
    assert!(!snapshot_is_fresh(10_000_000_000));
    assert!(snapshot_is_fresh(0));
}
