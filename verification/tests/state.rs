use haex::direction::Direction;
use haex::grid::Grid;
use haex::input::{ElementState, InputState, MouseButton, VirtualKeyCode};
use haex::player::{Player, State};
use haex::state::bad_end::{feistel, EndState};
use haex::state::black::Black;
use haex::state::menu::Menu;
use haex::state::transition::{RotateTransition, ShatterTransition, Step};
use haex::state::ui::{transition_time, Open, Program, Timer, UIState};
use haex::state::StateKind;
use std::time::Duration;

#[test]
fn feistel_test() {
    let v = (0..=255).map(|i| feistel(i)).collect::<std::collections::BTreeSet<_>>();
    assert_eq!(v.len(), 256);
    let mut v = v.into_iter().peekable();
    while let Some(i) = v.next() {
        if let Some(next) = v.peek().copied() {
            assert_eq!(i + 1, next);
        }
    }
}

fn reference_feistel(input: u8) -> u8 {
    let mut l = input & 0xf;
    let mut r = input >> 4;
    for _ in 0..8 {
        let nl = r;
        let f = (((r * 5).wrapping_add(r >> 3).wrapping_add(189)) ^ r) & 0xf;
        r = l ^ f;
        l = nl;
    }
    (r << 4) | l
}

#[test]
fn feistel_follows_its_rounds() {
    for input in 0..=255u8 {
        assert_eq!(feistel(input), reference_feistel(input));
    }
    assert_ne!(feistel(0), 0);
}

#[test]
fn bad_end_fades_in_cell_by_cell() {
    let mut picture = Grid { data: vec![false; 256], width: 16, height: 16 };
    let mut state = EndState::Start;
    state = state.advance(false, &mut picture);
    assert_eq!(state, EndState::Start);
    state = state.advance(true, &mut picture);
    assert_eq!(state, EndState::FadeToSequence(0));
    state = state.advance(true, &mut picture);
    assert_eq!(state, EndState::FadeToSequence(1));
    assert!(picture.data[feistel(0) as usize]);
    assert_eq!(picture.data.iter().filter(|shown| **shown).count(), 1);
    for _ in 1..256 {
        state = state.advance(true, &mut picture);
    }
    assert_eq!(state, EndState::Speech);
    assert!(picture.all_set());
    state = state.advance(true, &mut picture);
    assert_eq!(state, EndState::Speech);
}

#[test]
fn black_screen_waits_before_it_lets_go() {
    let mut black = Black::new(Duration::from_secs(1));
    assert_eq!(black.handle_key_event(ElementState::Released, VirtualKeyCode::Other), None);
    black.update(Duration::from_millis(999));
    assert_eq!(black.handle_key_event(ElementState::Released, VirtualKeyCode::W), None);
    black.update(Duration::from_millis(1));
    assert_eq!(black.handle_key_event(ElementState::Pressed, VirtualKeyCode::W), None);
    assert_eq!(
        black.handle_key_event(ElementState::Released, VirtualKeyCode::W),
        Some(StateKind::Menu)
    );
    assert_eq!(StateKind::default(), StateKind::Menu);
}

#[test]
fn shatter_ends_when_its_time_is_reached() {
    let mut change = ShatterTransition::new(1u8, 2u8, Duration::from_millis(1500));
    assert!(!change.update_time(Duration::from_millis(1000)));
    assert_eq!(change.elapsed, Duration::from_millis(1000));
    assert!(change.update_time(Duration::from_millis(500)));
    let change = ShatterTransition::new("from", "to", Duration::from_millis(10));
    let change = match change.update(Duration::from_millis(9)) {
        Step::Pending(change) => change,
        Step::Done(_) => panic!("over too early"),
    };
    assert_eq!(change.elapsed, Duration::from_millis(9));
    assert_eq!(change.from, "from");
    match change.update(Duration::from_millis(1)) {
        Step::Done(to) => assert_eq!(to, "to"),
        Step::Pending(_) => panic!("not over in time"),
    }
}

#[test]
fn rotation_ends_when_its_time_is_reached() {
    let change = RotateTransition {
        from: 1,
        to: 2,
        elapsed: Duration::from_secs(2),
        time: Duration::from_secs(3),
    };
    let change = match change.update(Duration::from_millis(999)) {
        Step::Pending(change) => change,
        Step::Done(_) => panic!("over too early"),
    };
    assert_eq!(change.elapsed, Duration::from_millis(2999));
    assert!(matches!(change.update(Duration::from_millis(1)), Step::Done(2)));
}

#[test]
fn panel_opens_and_closes_in_its_time() {
    assert_eq!(transition_time(), Duration::from_millis(200));
    let mut panel = UIState::Closed;
    assert!(!panel.is_open());
    panel.set_open(false);
    assert!(matches!(panel, UIState::Closed));
    panel.set_open(true);
    assert!(panel.is_open());
    panel.update(Duration::from_millis(150));
    match &panel {
        UIState::Opening(timer) => assert_eq!(timer.elapsed, Duration::from_millis(150)),
        _ => panic!("not opening"),
    }
    // turning round: the way back takes as long as the way so far
    panel.set_open(false);
    match &panel {
        UIState::Closing(timer) => {
            assert_eq!(timer.time, Duration::from_millis(200));
            assert_eq!(timer.elapsed, Duration::from_millis(50));
        },
        _ => panic!("not closing"),
    }
    panel.set_open(true);
    match &panel {
        UIState::Opening(timer) => assert_eq!(timer.elapsed, Duration::from_millis(150)),
        _ => panic!("not opening"),
    }
    panel.update(Duration::from_millis(50));
    assert!(matches!(panel, UIState::Open(Open { selected: 0 })));
    panel.update(Duration::from_secs(5));
    assert!(matches!(panel, UIState::Open(_)));
    panel.set_open(false);
    panel.update(Duration::from_millis(199));
    assert!(matches!(panel, UIState::Closing(_)));
    panel.update(Duration::MAX);
    assert!(matches!(panel, UIState::Closed));
    let mut timer = Timer::new(Duration::from_secs(1));
    assert_eq!(timer.elapsed, Duration::ZERO);
    timer.update(Duration::from_millis(250));
    timer.update(Duration::from_millis(250));
    assert_eq!(timer.progress(), (500_000_000, 1_000_000_000));
}

#[test]
fn panel_cursor_moves_and_starts_programs() {
    let mut panel = UIState::Open(Open::default());
    let press = ElementState::Pressed;
    assert_eq!(panel.handle_key_event(press, VirtualKeyCode::D), Some(Program::NopSlide));
    assert_eq!(panel.handle_key_event(press, VirtualKeyCode::W), None);
    assert!(matches!(panel, UIState::Open(Open { selected: 0 })));
    assert_eq!(panel.handle_key_event(press, VirtualKeyCode::S), None);
    assert_eq!(panel.handle_key_event(press, VirtualKeyCode::D), Some(Program::NoClip));
    assert_eq!(panel.handle_key_event(ElementState::Released, VirtualKeyCode::D), None);
    panel.handle_key_event(press, VirtualKeyCode::S);
    panel.handle_key_event(press, VirtualKeyCode::S);
    assert!(matches!(panel, UIState::Open(Open { selected: 2 })));
    assert_eq!(panel.handle_key_event(press, VirtualKeyCode::D), None);
    panel.handle_key_event(press, VirtualKeyCode::W);
    assert!(matches!(panel, UIState::Open(Open { selected: 1 })));
    let mut closed = UIState::Closed;
    assert_eq!(closed.handle_key_event(press, VirtualKeyCode::D), None);
}

#[test]
fn menu_starts_the_game_and_the_music() {
    let mut menu = Menu::new();
    assert_eq!(menu.handle_key_event(ElementState::Pressed, VirtualKeyCode::W), None);
    assert_eq!(menu.handle_key_event(ElementState::Released, VirtualKeyCode::Space), None);
    for key in [VirtualKeyCode::W, VirtualKeyCode::A, VirtualKeyCode::S, VirtualKeyCode::D] {
        assert_eq!(menu.handle_key_event(ElementState::Released, key), Some(StateKind::Main));
    }
    assert!(!menu.handle_mouse_button(ElementState::Pressed, MouseButton::Right, true));
    assert!(!menu.volume_clicked);
    assert!(menu.handle_mouse_button(ElementState::Pressed, MouseButton::Left, false));
    assert!(menu.music && !menu.volume_clicked);
    assert!(!menu.handle_mouse_button(ElementState::Pressed, MouseButton::Left, true));
    assert!(menu.volume_clicked);
    assert!(!menu.handle_mouse_button(ElementState::Released, MouseButton::Right, true));
    assert!(!menu.volume_clicked);
}

#[test]
fn keys_are_noted_and_turned_into_a_direction() {
    let mut keys = InputState::default();
    assert_eq!(keys.direction(), None);
    keys.handle_key_event(ElementState::Pressed, VirtualKeyCode::D);
    assert_eq!(keys.direction(), Some(Direction::E));
    keys.handle_key_event(ElementState::Pressed, VirtualKeyCode::A);
    assert_eq!(keys.direction(), Some(Direction::W));
    keys.handle_key_event(ElementState::Pressed, VirtualKeyCode::S);
    assert_eq!(keys.direction(), Some(Direction::S));
    keys.handle_key_event(ElementState::Pressed, VirtualKeyCode::W);
    assert_eq!(keys.direction(), Some(Direction::N));
    keys.handle_key_event(ElementState::Pressed, VirtualKeyCode::LControl);
    keys.handle_key_event(ElementState::Pressed, VirtualKeyCode::Other);
    assert_eq!(keys.key_states(), [true, false, true, true, true, true]);
    keys.handle_key_event(ElementState::Released, VirtualKeyCode::W);
    keys.handle_key_event(ElementState::Pressed, VirtualKeyCode::Space);
    assert_eq!(keys.key_states(), [true, true, false, true, true, true]);
}

#[test]
fn player_moves_for_the_time_of_the_move() {
    let mut player = Player::new((1, 1));
    assert!(!player.is_moving());
    player.update(Duration::from_secs(1));
    assert!(matches!(&player.state, State::Stationary(at) if at.position == (1, 1)));
    assert!(player.try_move((1, 2), Duration::from_millis(200)));
    assert!(player.is_moving());
    assert!(!player.try_move((5, 5), Duration::from_millis(1)));
    player.update(Duration::from_millis(150));
    match &player.state {
        State::Moving(moving) => {
            assert_eq!(moving.origin, (1, 1));
            assert_eq!(moving.target, (1, 2));
            assert_eq!(moving.elapsed, Duration::from_millis(150));
            assert_eq!(moving.time, Duration::from_millis(200));
        },
        State::Stationary(_) => panic!("arrived too early"),
    }
    player.update(Duration::from_millis(50));
    assert!(matches!(&player.state, State::Stationary(at) if at.position == (1, 2)));
    assert_eq!(player.programs.nop_slide, 0);
}

#[test]
fn lap_clock_begins_anew_with_what_is_over() {
    let mut timer = Timer::new(Duration::from_secs(1));
    assert!(!timer.lap(Duration::from_millis(900)));
    assert!(timer.lap(Duration::from_millis(300)));
    assert_eq!(timer.elapsed, Duration::from_millis(200));
    assert!(timer.lap(Duration::from_millis(800)));
    assert_eq!(timer.elapsed, Duration::ZERO);
}
