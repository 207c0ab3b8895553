use say::voice::{check, find_voice, pascal_to_string, VoiceInfo, VoiceSpec, WordEvent, WordQueue};

#[test]
fn word_event_drain() {
    let mut queue = WordQueue::new();
    queue.push(WordEvent {
        utf16_pos: 0,
        utf16_len: 5,
    });
    queue.push(WordEvent {
        utf16_pos: 6,
        utf16_len: 5,
    });
    let drained: Vec<WordEvent> = queue.drain();
    assert_eq!(drained.len(), 2);
    assert_eq!(drained[0].utf16_pos, 0);
    assert_eq!(drained[1].utf16_pos, 6);
    assert_eq!(queue.len(), 0);
}

#[test]
fn drain_twice_gives_only_new_words() {
    let mut queue = WordQueue::new();
    queue.push(WordEvent { utf16_pos: 1, utf16_len: 2 });
    assert_eq!(queue.drain().len(), 1);
    assert!(queue.drain().is_empty());
    queue.push(WordEvent { utf16_pos: 3, utf16_len: 4 });
    let again = queue.drain();
    assert_eq!(again.len(), 1);
    assert_eq!(again[0].utf16_pos, 3);
    assert_eq!(again[0].utf16_len, 4);
}

#[test]
fn word_event_from_range_clamps_negatives() {
    let e = WordEvent::from_range(-3, 4);
    assert_eq!((e.utf16_pos, e.utf16_len), (0, 4));
    let e = WordEvent::from_range(7, -1);
    assert_eq!((e.utf16_pos, e.utf16_len), (7, 0));
}

#[test]
fn check_zero_is_ok() {
    assert!(check(0, "anything").is_ok());
}

#[test]
fn check_nonzero_carries_code_and_context() {
    match check(-128, "CountVoices") {
        Err(e) => {
            assert_eq!(e.code, -128);
            assert_eq!(e.context, "CountVoices");
        }
        Ok(()) => panic!("expected an error"),
    }
}

#[test]
fn pascal_string_reads_counted_bytes() {
    let mut data = [0u8; 64];
    data[0] = 4;
    data[1..5].copy_from_slice(b"Alex");
    data[5] = b'!';
    assert_eq!(pascal_to_string(&data), "Alex");
}

#[test]
fn pascal_string_empty_or_too_long() {
    assert_eq!(pascal_to_string(&[0u8, b'a', b'b']), "");
    assert_eq!(pascal_to_string(&[3u8, b'a', b'b']), "");
    assert_eq!(pascal_to_string(&[2u8, b'a', b'b']), "ab");
}

#[test]
fn pascal_string_replaces_invalid_utf8() {
    assert_eq!(pascal_to_string(&[2u8, 0xff, b'a']), "\u{fffd}a");
}

fn voice(name: &str, id: u32) -> VoiceInfo {
    VoiceInfo {
        name: name.to_string(),
        spec: VoiceSpec { creator: 1, id },
    }
}

#[test]
fn find_voice_ignores_case_and_takes_first() {
    let voices = vec![voice("Alex", 1), voice("Samantha", 2), voice("SAMANTHA", 3)];
    let found = find_voice(&voices, "samantha").map(|s| s.id);
    assert_eq!(found, Some(2));
    assert_eq!(find_voice(&voices, "ALEX").map(|s| s.id), Some(1));
}

#[test]
fn find_voice_missing_is_none() {
    let voices = vec![voice("Alex", 1)];
    assert!(find_voice(&voices, "Victoria").is_none());
    assert!(find_voice(&Vec::new(), "Alex").is_none());
}
