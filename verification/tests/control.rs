use conway_life::control::{Action, Event, Pace, INITIAL_DELAY, MILLISECOND};

#[test]
fn a_fresh_session_stands_still() {
    let pace = Pace::start();
    assert_eq!(pace, Pace { max_delay: 100_000_000, next_delay: 100_000_000, animate: false });
    assert_eq!(INITIAL_DELAY, 100_000_000);
    assert_eq!(pace.wait(), None);
}

#[test]
fn space_starts_and_stops_the_animation() {
    let mut pace = Pace::start();
    assert_eq!(pace.react(Event::Key(' ')), Action::Nothing);
    assert!(pace.animate);
    assert_eq!(pace.wait(), Some(0));
    assert_eq!(pace.react(Event::Quiet), Action::Advance);
    assert_eq!(pace.wait(), Some(100_000_000));
    assert_eq!(pace.react(Event::Key(' ')), Action::Nothing);
    assert!(!pace.animate);
    assert_eq!(pace.wait(), None);
}

#[test]
fn keys_ask_for_their_actions() {
    let mut pace = Pace::start();
    assert_eq!(pace.react(Event::Key('q')), Action::Quit);
    assert_eq!(pace.react(Event::Key('s')), Action::Advance);
    assert_eq!(pace.react(Event::Ctrl('l')), Action::Refit);
    assert_eq!(pace.react(Event::Ctrl('q')), Action::Nothing);
    assert_eq!(pace.react(Event::Key('l')), Action::Nothing);
    assert_eq!(pace.react(Event::Key('x')), Action::Nothing);
    assert_eq!(pace.react(Event::Other), Action::Nothing);
    assert_eq!(pace, Pace::start());
}

#[test]
fn a_random_world_stops_the_animation() {
    let mut pace = Pace::start();
    pace.react(Event::Key(' '));
    pace.react(Event::Quiet);
    assert_eq!(pace.react(Event::Key('r')), Action::Regenerate);
    assert_eq!(pace, Pace { max_delay: 100_000_000, next_delay: 0, animate: false });
}

#[test]
fn minus_doubles_the_delay() {
    let mut pace = Pace::start();
    assert_eq!(pace.react(Event::Key('-')), Action::Nothing);
    assert_eq!(pace, Pace { max_delay: 200_000_000, next_delay: 200_000_000, animate: false });
    assert_eq!(pace.react(Event::Key('-')), Action::Nothing);
    assert_eq!(pace.max_delay, 400_000_000);
}

#[test]
fn plus_halves_the_delay_down_to_under_a_millisecond() {
    let mut pace = Pace::start();
    let mut seen = Vec::new();
    for _ in 0..10 {
        assert_eq!(pace.react(Event::Key('+')), Action::Nothing);
        seen.push(pace.max_delay);
        assert_eq!(pace.next_delay, pace.max_delay);
    }
    assert_eq!(
        seen,
        vec![
            50_000_000, 25_000_000, 12_500_000, 6_250_000, 3_125_000, 1_562_500, 781_250, 781_250,
            781_250, 781_250
        ]
    );
    assert!(pace.max_delay < MILLISECOND);
}

#[test]
fn plus_rounds_down() {
    let mut pace = Pace { max_delay: 1_000_001, next_delay: 7, animate: true };
    pace.react(Event::Key('+'));
    assert_eq!(pace, Pace { max_delay: 500_000, next_delay: 500_000, animate: true });
    pace.react(Event::Key('+'));
    assert_eq!(pace, Pace { max_delay: 500_000, next_delay: 500_000, animate: true });
}
