use trext::gui::{App, Application, Executable, Key};

#[test]
fn counter_app_keys() {
    let mut a = App::new();
    assert!(a.is_running());
    a.handle_key_event(Key::Left, false);
    assert_eq!(a.counter, 0);
    a.handle_key_event(Key::Right, false);
    a.handle_key_event(Key::Right, false);
    assert_eq!(a.counter, 2);
    a.handle_key_event(Key::Char('c'), false);
    assert!(a.is_running());
    a.handle_key_event(Key::Char('c'), true);
    assert!(!a.is_running());
}

#[test]
fn counter_saturates() {
    let mut a = App::default();
    a.counter = 255;
    a.increment_counter();
    assert_eq!(a.counter, 255);
    a.decrement_counter();
    assert_eq!(a.counter, 254);
    a.quit();
    assert!(!a.running);
}

#[test]
fn application_keys() {
    let mut a = Application::new();
    a.handle_key_press(Key::Up);
    assert_eq!(a.counter, 255);
    a.handle_key_press(Key::Right);
    assert_eq!(a.counter, 255);
    a.handle_key_press(Key::Down);
    a.handle_key_press(Key::Left);
    assert_eq!(a.counter, 0);
    a.handle_key_press(Key::Char('q'));
    assert!(a.can_exit());
    a.handle_key_press(Key::Esc);
    assert!(!a.can_exit());
}
