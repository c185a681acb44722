use wanhope::device::QueueFamilyIndices;
use wanhope::ui::Chat;
use wanhope::window::{WindowMode, WindowSettings};

#[test]
fn window_settings_default() {
    let d = WindowSettings::default();
    assert_eq!(d.title, "app");
    assert_eq!(d.width, 1280);
    assert_eq!(d.height, 720);
    assert!(d.resizable);
    assert!(d.cursor_visible);
    assert_eq!(d.mode, WindowMode::Windowed);
}

#[test]
fn chat_starts_empty_and_keeps_order() {
    let mut c = Chat::default();
    assert_eq!(c.text, "");
    assert!(c.messages.is_empty());
    c.push_message("alice: hi".to_string());
    c.push_message("bob: hello".to_string());
    assert_eq!(c.messages, vec!["alice: hi".to_string(), "bob: hello".to_string()]);
}

#[test]
fn queue_families_complete_only_with_both() {
    let mut q = QueueFamilyIndices {
        graphics_family: 0,
        present_family: 0,
        graphics_family_has_value: false,
        present_family_has_value: false,
    };
    assert!(!q.is_complete());
    q.graphics_family = 1;
    q.graphics_family_has_value = true;
    assert!(!q.is_complete());
    q.present_family = 2;
    q.present_family_has_value = true;
    assert!(q.is_complete());
}
