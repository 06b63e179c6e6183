use marigold::input::ButtonEvent::{Press, Release, Tick};
use marigold::input::{
    forwards_pointer_input, handle_key_event, menu_receives_input, ButtonInputs, FocusState, MenuState,
    ToggleKey,
};

#[test]
fn press_is_seen_until_the_next_tick() {
    let mut inputs = ButtonInputs::new();
    assert!(!inputs.pressed(3));
    inputs.press(3);
    assert!(inputs.pressed(3));
    assert!(inputs.just_pressed(3));
    assert!(!inputs.just_released(3));
    inputs.tick();
    assert!(inputs.pressed(3));
    assert!(!inputs.just_pressed(3));
}

#[test]
fn pressing_a_held_button_is_not_a_new_press() {
    let mut inputs = ButtonInputs::new();
    inputs.press(7);
    inputs.tick();
    inputs.press(7);
    assert!(inputs.pressed(7));
    assert!(!inputs.just_pressed(7));
}

#[test]
fn release_only_counts_for_held_buttons() {
    let mut inputs = ButtonInputs::new();
    inputs.release(1);
    assert!(!inputs.just_released(1));
    inputs.press(1);
    inputs.release(1);
    assert!(!inputs.pressed(1));
    assert!(inputs.just_pressed(1));
    assert!(inputs.just_released(1));
    inputs.tick();
    assert!(!inputs.just_pressed(1));
    assert!(!inputs.just_released(1));
    assert!(!inputs.pressed(1));
}

#[test]
fn buttons_are_independent() {
    let mut inputs = ButtonInputs::new();
    inputs.press(1);
    inputs.press(2);
    inputs.release(1);
    assert!(!inputs.pressed(1));
    assert!(inputs.pressed(2));
    assert!(inputs.just_pressed(2));
    assert!(!inputs.just_released(2));
}

#[test]
fn escape_toggles_the_focus() {
    let (focus, menu, forward) =
        handle_key_event(FocusState::Renderer, MenuState::Shown, ToggleKey::Escape, true, false);
    assert_eq!((focus, menu, forward), (FocusState::Menu, MenuState::Shown, false));
    let (focus, menu, forward) = handle_key_event(focus, menu, ToggleKey::Escape, true, false);
    assert_eq!((focus, menu, forward), (FocusState::Renderer, MenuState::Shown, true));
}

#[test]
fn repeats_and_releases_do_not_toggle() {
    assert_eq!(
        handle_key_event(FocusState::Renderer, MenuState::Shown, ToggleKey::Escape, true, true),
        (FocusState::Renderer, MenuState::Shown, true)
    );
    assert_eq!(
        handle_key_event(FocusState::Menu, MenuState::Shown, ToggleKey::F1, false, false),
        (FocusState::Menu, MenuState::Shown, false)
    );
    assert_eq!(
        handle_key_event(FocusState::Menu, MenuState::Hidden, ToggleKey::Other, true, false),
        (FocusState::Menu, MenuState::Hidden, false)
    );
}

#[test]
fn f1_hides_the_menu_and_returns_the_focus() {
    assert_eq!(
        handle_key_event(FocusState::Menu, MenuState::Shown, ToggleKey::F1, true, false),
        (FocusState::Renderer, MenuState::Hidden, true)
    );
    assert_eq!(
        handle_key_event(FocusState::Menu, MenuState::Hidden, ToggleKey::F1, true, false),
        (FocusState::Menu, MenuState::Shown, false)
    );
    assert_eq!(FocusState::default(), FocusState::Renderer);
    assert_eq!(MenuState::default(), MenuState::Shown);
}

#[test]
fn pointer_and_menu_routing() {
    assert!(forwards_pointer_input(FocusState::Renderer));
    assert!(!forwards_pointer_input(FocusState::Menu));
    assert!(menu_receives_input(FocusState::Menu, MenuState::Shown));
    assert!(!menu_receives_input(FocusState::Menu, MenuState::Hidden));
    assert!(!menu_receives_input(FocusState::Renderer, MenuState::Shown));
}

#[test]
fn held_buttons_follow_their_last_change() {
    let mut inputs = ButtonInputs::new();
    inputs.apply_all(&[Press(1), Press(2), Tick, Release(1), Press(3), Tick, Release(3), Press(3)]);
    assert!(!inputs.pressed(1));
    assert!(inputs.pressed(2));
    assert!(inputs.pressed(3));
    // released and pressed again within one frame: both changes are seen
    assert!(inputs.just_pressed(3));
    assert!(inputs.just_released(3));
    inputs.apply(Tick);
    assert!(inputs.pressed(2) && inputs.pressed(3));
    assert!(!inputs.just_released(3));
}
