//! Button state tracking (keyboard keys and mouse buttons) and the window focus
//! and menu toggles driven by key presses.
//!
//! Buttons are identified by a numeric code chosen by the windowing layer.

use vstd::prelude::*;
use std::collections::HashSet;

verus! {

broadcast use vstd::std_specs::hash::group_hash_axioms;

/// The sets of buttons held down, pressed during the current frame and
/// released during the current frame.
pub struct ButtonState {
    pub pressed: Set<u32>,
    pub just_pressed: Set<u32>,
    pub just_released: Set<u32>,
}

/// State after `button` went down: it is held, and it was just pressed when
/// it was not held before.
pub open spec fn after_press(s: ButtonState, button: u32) -> ButtonState {
    ButtonState {
        pressed: s.pressed.insert(button),
        just_pressed: if s.pressed.contains(button) {
            s.just_pressed
        } else {
            s.just_pressed.insert(button)
        },
        just_released: s.just_released,
    }
}

/// State after `button` went up: it is no longer held, and it was just
/// released when it was held before.
pub open spec fn after_release(s: ButtonState, button: u32) -> ButtonState {
    ButtonState {
        pressed: s.pressed.remove(button),
        just_pressed: s.just_pressed,
        just_released: if s.pressed.contains(button) {
            s.just_released.insert(button)
        } else {
            s.just_released
        },
    }
}

/// State at the start of a new frame: nothing was just pressed or released.
pub open spec fn after_tick(s: ButtonState) -> ButtonState {
    ButtonState { pressed: s.pressed, just_pressed: Set::empty(), just_released: Set::empty() }
}

/// Which buttons are held, and which changed during the current frame.
pub struct ButtonInputs {
    pressed: HashSet<u32>,
    just_pressed: HashSet<u32>,
    just_released: HashSet<u32>,
}

impl View for ButtonInputs {
    type V = ButtonState;

    closed spec fn view(&self) -> ButtonState {
        ButtonState {
            pressed: self.pressed@,
            just_pressed: self.just_pressed@,
            just_released: self.just_released@,
        }
    }
}

impl ButtonInputs {
    /// No button held, none changed.
    pub fn new() -> (r: Self)
        ensures
            r@ == (ButtonState {
                pressed: Set::empty(),
                just_pressed: Set::empty(),
                just_released: Set::empty(),
            }),
    {
        ButtonInputs { pressed: HashSet::new(), just_pressed: HashSet::new(), just_released: HashSet::new() }
    }

    /// Records that `button` went down.
    pub fn press(&mut self, button: u32)
        ensures
            final(self)@ == after_press(old(self)@, button),
            forall|x: u32|
                #[trigger] final(self)@.pressed.contains(x) <==> (old(self)@.pressed.contains(x) || x == button),
            forall|x: u32|
                x != button ==> (#[trigger] final(self)@.just_pressed.contains(x)
                    <==> old(self)@.just_pressed.contains(x)),
            final(self)@.just_pressed.contains(button) <==> (old(self)@.just_pressed.contains(button)
                || !old(self)@.pressed.contains(button)),
            final(self)@.just_released == old(self)@.just_released,
    {
        if self.pressed.insert(button) {
            self.just_pressed.insert(button);
        }
    }

    /// Records that `button` went up.
    pub fn release(&mut self, button: u32)
        ensures
            final(self)@ == after_release(old(self)@, button),
            forall|x: u32|
                #[trigger] final(self)@.pressed.contains(x) <==> (old(self)@.pressed.contains(x) && x != button),
            forall|x: u32|
                x != button ==> (#[trigger] final(self)@.just_released.contains(x)
                    <==> old(self)@.just_released.contains(x)),
            final(self)@.just_released.contains(button) <==> (old(self)@.just_released.contains(button)
                || old(self)@.pressed.contains(button)),
            final(self)@.just_pressed == old(self)@.just_pressed,
    {
        if self.pressed.remove(&button) {
            self.just_released.insert(button);
        }
    }

    /// Starts a new frame.
    pub fn tick(&mut self)
        ensures
            final(self)@ == after_tick(old(self)@),
            final(self)@.pressed == old(self)@.pressed,
            forall|x: u32| !(#[trigger] final(self)@.just_pressed.contains(x)),
            forall|x: u32| !(#[trigger] final(self)@.just_released.contains(x)),
    {
        self.just_pressed.clear();
        self.just_released.clear();
    }

    pub fn pressed(&self, button: u32) -> (r: bool)
        ensures
            r == self@.pressed.contains(button),
    {
        self.pressed.contains(&button)
    }

    pub fn just_pressed(&self, button: u32) -> (r: bool)
        ensures
            r == self@.just_pressed.contains(button),
    {
        self.just_pressed.contains(&button)
    }

    pub fn just_released(&self, button: u32) -> (r: bool)
        ensures
            r == self@.just_released.contains(button),
    {
        self.just_released.contains(&button)
    }
}

/// Releasing a button that was up and then pressed puts the held set back as it
/// was, and the button is both just pressed and just released in that frame.
pub proof fn lemma_release_undoes_press(s: ButtonState, button: u32)
    requires
        !s.pressed.contains(button),
    ensures
        after_release(after_press(s, button), button).pressed == s.pressed,
        after_release(after_press(s, button), button).just_pressed.contains(button),
        after_release(after_press(s, button), button).just_released.contains(button),
{
    assert(s.pressed.insert(button).remove(button) =~= s.pressed);
}

/// Pressing a button that is already held changes nothing.
pub proof fn lemma_press_held_is_noop(s: ButtonState, button: u32)
    requires
        s.pressed.contains(button),
    ensures
        after_press(s, button) == s,
{
    assert(s.pressed.insert(button) =~= s.pressed);
}

/// A new frame keeps the held buttons and forgets every change; pressing
/// a button leaves it held whatever came before.
pub proof fn lemma_tick_keeps_held(s: ButtonState, button: u32)
    ensures
        after_tick(s).pressed == s.pressed,
        !after_tick(s).just_pressed.contains(button),
        !after_tick(s).just_released.contains(button),
        after_press(s, button).pressed.contains(button),
        !after_release(s, button).pressed.contains(button),
{
}

/// One change reported to a [`ButtonInputs`].
#[derive(Clone, Copy, PartialEq, Eq, Structural, Debug)]
pub enum ButtonEvent {
    Press(u32),
    Release(u32),
    Tick,
}

/// State after one event.
pub open spec fn after_event(s: ButtonState, e: ButtonEvent) -> ButtonState {
    match e {
        ButtonEvent::Press(b) => after_press(s, b),
        ButtonEvent::Release(b) => after_release(s, b),
        ButtonEvent::Tick => after_tick(s),
    }
}

/// State after the events of `events`, in order, starting from `s`.
pub open spec fn replay(s: ButtonState, events: Seq<ButtonEvent>) -> ButtonState
    decreases events.len(),
{
    if events.len() == 0 {
        s
    } else {
        after_event(replay(s, events.drop_last()), events.last())
    }
}

/// No button held, none changed.
pub open spec fn no_buttons() -> ButtonState {
    ButtonState { pressed: Set::empty(), just_pressed: Set::empty(), just_released: Set::empty() }
}

/// Whether the last press or release of `button` among `events` was a press
/// (`Some(true)`), a release (`Some(false)`), or there was none.
pub open spec fn last_change(events: Seq<ButtonEvent>, button: u32) -> Option<bool>
    decreases events.len(),
{
    if events.len() == 0 {
        None
    } else {
        match events.last() {
            ButtonEvent::Press(b) => if b == button {
                Some(true)
            } else {
                last_change(events.drop_last(), button)
            },
            ButtonEvent::Release(b) => if b == button {
                Some(false)
            } else {
                last_change(events.drop_last(), button)
            },
            ButtonEvent::Tick => last_change(events.drop_last(), button),
        }
    }
}

/// After any sequence of presses, releases and ticks from no buttons, a
/// button is held exactly when its last press or release was a press; ticks
/// never change what is held.
pub proof fn lemma_held_iff_last_pressed(events: Seq<ButtonEvent>, button: u32)
    ensures
        replay(no_buttons(), events).pressed.contains(button) <==> last_change(events, button)
            == Some(true),
    decreases events.len(),
{
    if events.len() > 0 {
        lemma_held_iff_last_pressed(events.drop_last(), button);
    }
}

impl ButtonInputs {
    /// Applies one event.
    pub fn apply(&mut self, event: ButtonEvent)
        ensures
            final(self)@ == after_event(old(self)@, event),
    {
        match event {
            ButtonEvent::Press(b) => self.press(b),
            ButtonEvent::Release(b) => self.release(b),
            ButtonEvent::Tick => self.tick(),
        }
    }

    /// Applies `events` in order.
    pub fn apply_all(&mut self, events: &[ButtonEvent])
        ensures
            final(self)@ == replay(old(self)@, events@),
    {
        let mut i: usize = 0;
        while i < events.len()
            invariant
                i <= events@.len(),
                self@ == replay(old(self)@, events@.subrange(0, i as int)),
            decreases events@.len() - i,
        {
            proof {
                assert(events@.subrange(0, i + 1).drop_last() =~= events@.subrange(0, i as int));
            }
            self.apply(events[i]);
            i = i + 1;
        }
        proof {
            assert(events@.subrange(0, events@.len() as int) =~= events@);
        }
    }
}

/// A press touches only the pressed button: the button becomes held, it
/// becomes just pressed when it was not held, every button already just
/// pressed in the frame stays just pressed, no other button becomes just
/// pressed, and nothing is just released by it.
pub proof fn lemma_press_touches_only_its_button(s: ButtonState, button: u32)
    ensures
        after_press(s, button).pressed.contains(button),
        !s.pressed.contains(button) ==> after_press(s, button).just_pressed.contains(button),
        s.pressed.contains(button) ==> (after_press(s, button).just_pressed.contains(button)
            <==> s.just_pressed.contains(button)),
        forall|x: u32| #[trigger] s.just_pressed.contains(x) ==> after_press(s, button).just_pressed.contains(x),
        forall|x: u32|
            x != button ==> (#[trigger] after_press(s, button).just_pressed.contains(x)
                <==> s.just_pressed.contains(x)),
        forall|x: u32|
            x != button ==> (#[trigger] after_press(s, button).pressed.contains(x) <==> s.pressed.contains(x)),
        after_press(s, button).just_released == s.just_released,
{
}

/// A release touches only the released button: it is no longer held, it
/// becomes just released when it was held, every button already just
/// released in the frame stays so, and the frame's presses are kept.
pub proof fn lemma_release_touches_only_its_button(s: ButtonState, button: u32)
    ensures
        !after_release(s, button).pressed.contains(button),
        s.pressed.contains(button) ==> after_release(s, button).just_released.contains(button),
        !s.pressed.contains(button) ==> (after_release(s, button).just_released.contains(button)
            <==> s.just_released.contains(button)),
        forall|x: u32| #[trigger] s.just_released.contains(x) ==> after_release(s, button).just_released.contains(x),
        forall|x: u32|
            x != button ==> (#[trigger] after_release(s, button).just_released.contains(x)
                <==> s.just_released.contains(x)),
        forall|x: u32|
            x != button ==> (#[trigger] after_release(s, button).pressed.contains(x) <==> s.pressed.contains(x)),
        after_release(s, button).just_pressed == s.just_pressed,
{
}

/// Presses of different buttons within one frame, from a frame with nothing
/// held, leave both buttons held and both just pressed, whichever came first.
pub proof fn lemma_presses_in_a_frame_accumulate(s: ButtonState, a: u32, b: u32)
    requires
        !s.pressed.contains(a),
        !s.pressed.contains(b),
    ensures
        after_press(after_press(s, a), b).just_pressed.contains(a),
        after_press(after_press(s, a), b).just_pressed.contains(b),
        after_press(after_press(s, a), b).pressed.contains(a),
        after_press(after_press(s, a), b).pressed.contains(b),
{
}

/// Where keyboard and mouse input goes; toggled by Escape.
#[derive(Clone, Copy, PartialEq, Eq, Structural, Debug)]
pub enum FocusState {
    Renderer,
    Menu,
}

/// Whether the menus are drawn; toggled by F1.
#[derive(Clone, Copy, PartialEq, Eq, Structural, Debug)]
pub enum MenuState {
    Shown,
    Hidden,
}

impl Default for FocusState {
    fn default() -> (r: Self)
        ensures
            r == FocusState::Renderer,
    {
        FocusState::Renderer
    }
}

impl Default for MenuState {
    fn default() -> (r: Self)
        ensures
            r == MenuState::Shown,
    {
        MenuState::Shown
    }
}

/// The keys the focus and menu toggles react to.
#[derive(Clone, Copy, PartialEq, Eq, Structural, Debug)]
pub enum ToggleKey {
    Escape,
    F1,
    Other,
}

/// Focus and menu state after a keyboard event, and whether the event goes on
/// to the renderer. Only a fresh press (not a repeat) of Escape or F1 toggles:
/// Escape swaps the focus, F1 hides or shows the menu, hiding also giving the
/// focus back to the renderer. The event is forwarded when the renderer has
/// the focus after the toggles.
pub open spec fn key_event_spec(
    focus: FocusState,
    menu: MenuState,
    key: ToggleKey,
    pressed: bool,
    repeat: bool,
) -> (FocusState, MenuState, bool) {
    let fresh = pressed && !repeat;
    let focus1 = if key == ToggleKey::Escape && fresh {
        if focus == FocusState::Renderer {
            FocusState::Menu
        } else {
            FocusState::Renderer
        }
    } else {
        focus
    };
    let (focus2, menu2) = if key == ToggleKey::F1 && fresh {
        if menu == MenuState::Shown {
            (FocusState::Renderer, MenuState::Hidden)
        } else {
            (focus1, MenuState::Shown)
        }
    } else {
        (focus1, menu)
    };
    (focus2, menu2, focus2 == FocusState::Renderer)
}

pub fn handle_key_event(
    focus: FocusState,
    menu: MenuState,
    key: ToggleKey,
    pressed: bool,
    repeat: bool,
) -> (r: (FocusState, MenuState, bool))
    ensures
        r == key_event_spec(focus, menu, key, pressed, repeat),
        r.2 == (r.0 == FocusState::Renderer),
        !(pressed && !repeat) || key == ToggleKey::Other ==> r.0 == focus && r.1 == menu,
        pressed && !repeat && key == ToggleKey::Escape ==> r.0 != focus && r.1 == menu,
        pressed && !repeat && key == ToggleKey::F1 ==> r.1 != menu,
        pressed && !repeat && key == ToggleKey::F1 && menu == MenuState::Shown ==> r.0
            == FocusState::Renderer,
        pressed && !repeat && key == ToggleKey::F1 && menu == MenuState::Hidden ==> r.0 == focus,
{
    let fresh = pressed && !repeat;
    let mut focus = focus;
    let mut menu = menu;
    if key == ToggleKey::Escape && fresh {
        focus = match focus {
            FocusState::Renderer => FocusState::Menu,
            FocusState::Menu => FocusState::Renderer,
        };
    }
    if key == ToggleKey::F1 && fresh {
        menu = match menu {
            MenuState::Shown => {
                focus = FocusState::Renderer;
                MenuState::Hidden
            },
            MenuState::Hidden => MenuState::Shown,
        };
    }
    (focus, menu, focus == FocusState::Renderer)
}

/// Whether mouse movement and mouse buttons go to the renderer.
pub fn forwards_pointer_input(focus: FocusState) -> (r: bool)
    ensures
        r == (focus == FocusState::Renderer),
{
    focus == FocusState::Renderer
}

/// Whether the menu receives window input: only when it has the focus and is shown.
pub fn menu_receives_input(focus: FocusState, menu: MenuState) -> (r: bool)
    ensures
        r == (focus == FocusState::Menu && menu == MenuState::Shown),
{
    focus == FocusState::Menu && menu == MenuState::Shown
}

/// What each key does: the event goes to the renderer exactly when the
/// renderer has the focus afterwards; a repeat, a release or another key
/// changes nothing; a fresh Escape swaps the focus and leaves the menu; a
/// fresh F1 flips the menu, moving the focus (to the renderer) only when it
/// hides the menu, and showing the menu leaves the focus where it was.
pub proof fn lemma_key_effects(focus: FocusState, menu: MenuState, key: ToggleKey, pressed: bool, repeat: bool)
    ensures
        ({
            let (f, m, forward) = key_event_spec(focus, menu, key, pressed, repeat);
            &&& forward == (f == FocusState::Renderer)
            &&& (!(pressed && !repeat) || key == ToggleKey::Other) ==> f == focus && m == menu
            &&& (pressed && !repeat && key == ToggleKey::Escape) ==> f != focus && m == menu
            &&& (pressed && !repeat && key == ToggleKey::F1) ==> m != menu
            &&& (pressed && !repeat && key == ToggleKey::F1 && f != focus) ==> menu == MenuState::Shown
                && f == FocusState::Renderer
            &&& (pressed && !repeat && key == ToggleKey::F1 && menu == MenuState::Hidden) ==> f == focus
                && m == MenuState::Shown
        }),
{
}

/// Two fresh presses of Escape give the focus back to where it was; a fresh
/// press of F1 while the menu is shown always hands the focus to the renderer.
pub proof fn lemma_escape_twice_restores_focus(focus: FocusState, menu: MenuState)
    ensures
        ({
            let (f1, m1, _) = key_event_spec(focus, menu, ToggleKey::Escape, true, false);
            let (f2, m2, _) = key_event_spec(f1, m1, ToggleKey::Escape, true, false);
            f2 == focus && m2 == menu
        }),
        key_event_spec(focus, MenuState::Shown, ToggleKey::F1, true, false) == (
            FocusState::Renderer,
            MenuState::Hidden,
            true,
        ),
        forall|k: ToggleKey, p: bool|
            #[trigger] key_event_spec(focus, menu, k, p, true) == (focus, menu, focus
                == FocusState::Renderer),
{
}

} // verus!
