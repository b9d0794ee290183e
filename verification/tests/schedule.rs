use progress_engine::schedule::{Reading, Schedule};

#[test]
fn a_cumulative_reading_collapses_unobserved_turns() {
    let s = Schedule::plain(&[7, 1, 1, 1]);
    let n = s.narrowed(&[2], Reading::Cumulative);
    assert_eq!(n.gaps().clone(), vec![0, 0, 9, 0]);
    assert_eq!(n.turns(), 4);
}

#[test]
fn a_per_turn_reading_keeps_the_history_up_to_the_last_turn_asked() {
    let s = Schedule::plain(&[7, 1, 1, 1]);
    let n = s.narrowed(&[0, 2], Reading::PerTurn);
    assert_eq!(n.gaps().clone(), vec![7, 1, 1, 0]);
}

#[test]
fn observed_turns_see_as_many_cards_as_before() {
    let s = Schedule::plain(&[7, 1, 1, 1, 1]);
    let n = s.narrowed(&[1, 3], Reading::Cumulative);
    let seen = |g: &Vec<u32>, t: usize| g[..=t].iter().sum::<u32>();
    assert_eq!(seen(n.gaps(), 1), seen(s.gaps(), 1));
    assert_eq!(seen(n.gaps(), 3), seen(s.gaps(), 3));
}

#[test]
fn asking_about_nothing_draws_nothing() {
    let s = Schedule::plain(&[7, 1]);
    let n = s.narrowed(&[5], Reading::PerTurn);
    assert_eq!(n.gaps().clone(), vec![0, 0]);
}

#[test]
fn a_built_schedule_has_a_slot_per_look() {
    let s = Schedule::build(2, true, Vec::new(), None);
    assert_eq!(s.gaps().clone(), vec![7, 1, 1]);
    assert_eq!(s.checkpoints_of(1), (1, 1));
    assert_eq!(s.draw_at(1), 1);
    let on_the_play = Schedule::build(2, false, Vec::new(), None);
    assert_eq!(on_the_play.draw_at(1), 0);
    assert!(!on_the_play.routes_to_graveyard());
}
