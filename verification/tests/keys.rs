use virtual_cpu::keys::{keys_for, KeyEvent, KeysDown, KEY_CONFIRM};

#[test]
fn keys_for_address_and_byte() {
    assert_eq!(keys_for(0x8001, 0x81), vec![0x51, 0x48, 0x31, 0x38]);
    assert_eq!(keys_for(0, 0), Vec::<u16>::new());
    assert_eq!(
        keys_for(0xFFFF, 0xFF),
        vec![
            0x51, 0x57, 0x45, 0x52, 0x54, 0x59, 0x55, 0x49, 0x4F, 0x50, 0x41, 0x53, 0x44, 0x46,
            0x47, 0x48, 0x31, 0x32, 0x33, 0x34, 0x35, 0x36, 0x37, 0x38
        ]
    );
    assert_eq!(keys_for(0x0100, 0x02), vec![0x49, 0x37]);
}

#[test]
fn press_and_release() {
    let mut k = KeysDown::new();
    assert_eq!(k.press_key(0x51), KeyEvent::Press { key: 0x51 });
    assert_eq!(k.press_key(0x51), KeyEvent::Press { key: 0x51 });
    assert!(k.is_down(0x51));
    assert_eq!(k.release_key(0x51), KeyEvent::Release { key: 0x51 });
    assert!(!k.is_down(0x51));
    assert_eq!(k.release_key(KEY_CONFIRM), KeyEvent::Release { key: KEY_CONFIRM });
}

#[test]
fn release_all_releases_each_held_key_once() {
    let mut k = KeysDown::new();
    for key in [0x31, 0x32, 0x31, KEY_CONFIRM] {
        k.press_key(key);
    }
    let mut released: Vec<u16> = k
        .release_all_keys()
        .into_iter()
        .map(|e| match e {
            KeyEvent::Release { key } => key,
            KeyEvent::Press { .. } => panic!("only releases"),
        })
        .collect();
    released.sort();
    assert_eq!(released, vec![0x31, 0x32, KEY_CONFIRM]);
    assert!(k.release_all_keys().is_empty());
}

#[test]
fn frame_releases_then_presses_then_confirms() {
    let mut k = KeysDown::new();
    let (releases, presses, confirm) = k.frame(0x8001, 0x81);
    assert_eq!(releases, vec![KeyEvent::Release { key: KEY_CONFIRM }]);
    assert_eq!(
        presses,
        vec![
            KeyEvent::Press { key: 0x51 },
            KeyEvent::Press { key: 0x48 },
            KeyEvent::Press { key: 0x31 },
            KeyEvent::Press { key: 0x38 }
        ]
    );
    assert_eq!(confirm, KeyEvent::Press { key: KEY_CONFIRM });
    let (releases, presses, _) = k.frame(0, 0x01);
    assert_eq!(releases[0], KeyEvent::Release { key: KEY_CONFIRM });
    let mut rest: Vec<KeyEvent> = releases[1..].to_vec();
    rest.sort_by_key(|e| match e {
        KeyEvent::Release { key } | KeyEvent::Press { key } => *key,
    });
    assert_eq!(
        rest,
        vec![
            KeyEvent::Release { key: 0x31 },
            KeyEvent::Release { key: 0x38 },
            KeyEvent::Release { key: 0x48 },
            KeyEvent::Release { key: 0x51 }
        ]
    );
    assert_eq!(presses, vec![KeyEvent::Press { key: 0x38 }]);
    assert!(k.is_down(0x38) && k.is_down(KEY_CONFIRM) && !k.is_down(0x51));
}

#[test]
fn held_keys_are_those_last_pressed() {
    let mut k = KeysDown::new();
    let mut events = vec![k.press_key(0x31), k.press_key(0x32), k.release_key(0x31)];
    events.push(k.press_key(0x33));
    assert!(!k.is_down(0x31) && k.is_down(0x32) && k.is_down(0x33));
    events.extend(k.release_all_keys());
    for key in [0x31u16, 0x32, 0x33] {
        assert!(!k.is_down(key));
        let last = events.iter().rev().find(|e| match e {
            KeyEvent::Press { key: x } | KeyEvent::Release { key: x } => *x == key,
        });
        assert!(matches!(last, Some(KeyEvent::Release { .. })));
    }
}
