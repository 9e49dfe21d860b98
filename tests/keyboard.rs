use ratatui_android::direct_keyboard::str_eq;
use ratatui_android::{DirectKeyboard, DirectKeyboardState, KeyboardState, KeyboardWidget};

#[test]
fn touch_in_each_button_returns_its_key() {
    let kb = DirectKeyboard::new();
    let rects = kb.layout(1080, 1500, 80).unwrap();
    assert_eq!(rects.len(), 11);
    for r in &rects {
        let hit = kb.handle_touch(r.x + r.width / 2, r.y + r.height / 2, 1080, 1500, 80);
        assert_eq!(hit, Some(r.key_name));
        assert_eq!(kb.handle_touch(r.x, r.y, 1080, 1500, 80), Some(r.key_name));
        assert_eq!(kb.handle_touch(r.x + r.width - 1, r.y + r.height - 1, 1080, 1500, 80), Some(r.key_name));
    }
}

#[test]
fn default_layout_geometry() {
    let kb = DirectKeyboard::new();
    let rects = kb.layout(1080, 1500, 80).unwrap();
    // 1080 / 7 = 154, capped at 150; the keyboard is centred.
    assert_eq!((rects[0].x, rects[0].y, rects[0].width, rects[0].height), (15, 1501, 150, 80));
    assert_eq!(rects[1].x, 167);
    assert_eq!(rects[0].key_name, "ESC");
    assert_eq!(rects[6].key_name, "ENTER");
    assert_eq!((rects[7].x, rects[7].y), (15 + 450 + 6, 1583));
    assert_eq!(rects[7].key_name, "LEFT");
    assert_eq!(rects[10].key_name, "KEYBOARD");
    assert_eq!(kb.height_pixels(80), 164);
}

#[test]
fn touch_outside_buttons_returns_none() {
    let kb = DirectKeyboard::new();
    assert_eq!(kb.handle_touch(500, 100, 1080, 1500, 80), None);
    // The gap between the first two buttons.
    assert_eq!(kb.handle_touch(165, 1540, 1080, 1500, 80), None);
    // The indentation left of the bottom row.
    assert_eq!(kb.handle_touch(20, 1600, 1080, 1500, 80), None);
    // The strip between the rows.
    assert_eq!(kb.handle_touch(100, 1582, 1080, 1500, 80), None);
    assert_eq!(kb.handle_touch(0, 0, 1080, usize::MAX - 10, 80), None);
}

#[test]
fn render_draws_strip_and_buttons_below_keyboard_top() {
    let kb = DirectKeyboard::new();
    let mut state = DirectKeyboardState::new();
    state.set_pressed_at("ESC".to_string(), 5);
    let (w, h) = (1080usize, 1700usize);
    let mut dest = vec![9u8; w * h * 4];
    kb.render_at(&state, &mut dest, w, w, h, 1500, 80, 100);
    let at = |x: usize, y: usize| {
        let i = (y * w + x) * 4;
        [dest[i], dest[i + 1], dest[i + 2], dest[i + 3]]
    };
    assert_eq!(at(0, 1499), [9, 9, 9, 9]);
    assert_eq!(at(0, 1500), [20, 20, 20, 255]);
    // Corner, border and fill of the pressed Esc key.
    assert_eq!(at(15, 1501), [20, 20, 20, 255]);
    assert_eq!(at(20, 1501), [80, 80, 80, 255]);
    assert_eq!(at(20, 1510), [0, 200, 100, 255]);
    // Enter is blue.
    let enter_x = 15 + 6 * 152 + 5;
    assert_eq!(at(enter_x, 1510), [50, 80, 200, 255]);
}

#[test]
fn direct_state_toggles_and_feedback() {
    let mut s = DirectKeyboardState::new();
    assert!(!s.should_show_feedback_at(0));
    s.set_pressed_at("UP".to_string(), 1000);
    assert!(s.should_show_feedback_at(1199));
    assert!(!s.should_show_feedback_at(1200));
    s.toggle_shift();
    s.toggle_ctrl();
    assert!(s.shift_active && s.ctrl_active);
    s.toggle_shift();
    assert!(!s.shift_active);
    s.clear_pressed();
    assert!(s.pressed_key.is_none());
    s.set_pressed("TAB".to_string());
    assert!(s.should_show_feedback());
}

#[test]
fn widget_touch_maps_columns_to_keys() {
    let mut state = KeyboardState::new();
    {
        let mut widget = KeyboardWidget::new(&mut state);
        assert_eq!(widget.handle_touch(10, 20, 20), None);
    }
    state.row1_start_col = Some(10);
    state.row2_start_col = Some(10);
    let mut widget = KeyboardWidget::new(&mut state);
    assert_eq!(widget.handle_touch(10, 20, 20), Some("ESC".to_string()));
    assert_eq!(widget.handle_touch(22, 20, 20), Some("UP".to_string()));
    assert_eq!(widget.handle_touch(30, 20, 20), Some("ENTER".to_string()));
    assert_eq!(widget.handle_touch(31, 20, 20), None);
    assert_eq!(widget.handle_touch(19, 21, 20), Some("LEFT".to_string()));
    assert_eq!(widget.handle_touch(28, 21, 20), Some("KEYBOARD".to_string()));
    assert_eq!(widget.handle_touch(12, 21, 20), None);
    assert_eq!(widget.handle_touch(12, 22, 20), None);
    assert_eq!(state.pressed_key, Some("KEYBOARD".to_string()));
    assert!(state.should_show_feedback());
}

#[test]
fn keyboard_state_basics() {
    let mut s = KeyboardState::new();
    s.set_pressed_at("DOWN".to_string(), 50);
    assert!(s.should_show_feedback_at(100));
    s.clear_pressed();
    assert!(!s.should_show_feedback_at(100));
    s.toggle_ctrl();
    assert!(s.ctrl_active);
}

#[test]
fn string_comparison() {
    assert!(str_eq("ESC", "ESC"));
    assert!(!str_eq("ESC", "ES"));
    assert!(!str_eq("ESC", "ESD"));
}

#[test]
fn touch_agrees_with_layout_everywhere() {
    let kb = DirectKeyboard::new();
    for &(ww, ky, bh) in &[(1080usize, 1500usize, 80u32), (500, 10, 30), (40, 0, 5)] {
        let rects = kb.layout(ww, ky, bh).unwrap();
        for y in ky..ky + 2 * bh as usize + 6 {
            for x in 0..ww + 20 {
                let inside: Vec<&str> = rects
                    .iter()
                    .filter(|r| r.x <= x && x < r.x + r.width && r.y <= y && y < r.y + r.height)
                    .map(|r| r.key_name)
                    .collect();
                assert!(inside.len() <= 1);
                assert_eq!(kb.handle_touch(x, y, ww, ky, bh), inside.first().copied());
            }
        }
    }
}

#[test]
fn stale_press_is_not_highlighted() {
    let kb = DirectKeyboard::new();
    let mut state = DirectKeyboardState::new();
    state.set_pressed_at("ESC".to_string(), 5);
    let (w, h) = (1080usize, 1700usize);
    let mut dest = vec![9u8; w * h * 4];
    kb.render_at(&state, &mut dest, w, w, h, 1500, 80, 5000);
    let i = (1510 * w + 20) * 4;
    assert_eq!(&dest[i..i + 4], &[40, 40, 40, 255]);
    let mut fresh = vec![9u8; w * h * 4];
    state.set_pressed("ESC".to_string());
    kb.render(&state, &mut fresh, w, w, h, 1500, 80);
    assert_eq!(&fresh[i..i + 4], &[0, 200, 100, 255]);
}

#[test]
fn widget_touch_above_keyboard_hits_nothing() {
    let mut state = KeyboardState::new();
    state.row1_start_col = Some(10);
    state.row2_start_col = Some(10);
    assert_eq!(state.handle_touch(12, 19, 20), None);
    assert!(state.pressed_key.is_none());
    assert_eq!(state.handle_touch(12, 20, 20), Some("ESC".to_string()));
    assert!(state.press_time.is_some());
}

#[test]
fn buttons_take_their_state_colours() {
    let kb = DirectKeyboard::new();
    let mut state = DirectKeyboardState::new();
    state.toggle_shift();
    state.set_pressed_at("UP".to_string(), 1000);
    let (w, h) = (1080usize, 1800usize);
    let mut dest = vec![9u8; w * h * 4];
    kb.render_at(&state, &mut dest, w, w, h, 1500, 80, 1100);
    let at = |x: usize, y: usize| {
        let i = (y * w + x) * 4;
        [dest[i], dest[i + 1], dest[i + 2], dest[i + 3]]
    };
    let rects = kb.layout(w, 1500, 80).unwrap();
    // Inside each key, away from the label box in the middle.
    let inside = |i: usize| at(rects[i].x + 3, rects[i].y + 3);
    assert_eq!(inside(0), [40, 40, 40, 255]); // ESC
    assert_eq!(inside(2), [0, 150, 200, 255]); // SHIFT, toggled
    assert_eq!(inside(3), [40, 40, 40, 255]); // CTRL
    assert_eq!(inside(4), [0, 200, 100, 255]); // UP, pressed 100 ms ago
    assert_eq!(inside(6), [50, 80, 200, 255]); // ENTER
    assert_eq!(inside(10), [50, 80, 200, 255]); // KEYBOARD
    assert_eq!(at(rects[0].x, rects[0].y), [20, 20, 20, 255]);
    assert_eq!(at(rects[0].x + 5, rects[0].y), [80, 80, 80, 255]);
    // Strip between the rows, and rows below the strip untouched.
    assert_eq!(at(500, 1500 + 80 + 2), [20, 20, 20, 255]);
    assert_eq!(at(0, 1500 + 164), [9, 9, 9, 9]);
}
