use progress_engine::board::Board;
use progress_engine::effect::{Effect, Route, Trigger};
use progress_engine::grouping::Grouping;
use progress_engine::mana::{Cost, ManaSource, Palette};
use progress_engine::policy::LandDropPolicy;
use progress_engine::schedule::Schedule;
use progress_engine::zone::Zone;

fn island() -> ManaSource {
    ManaSource::Land { enters_tapped: false, produces: Palette::from_letters(&["U"]) }
}

fn q(names: &[&str]) -> Vec<String> {
    names.iter().map(|s| s.to_string()).collect()
}

#[test]
fn a_plain_walk_holds_what_was_drawn() {
    let g = Grouping::with_mana(q(&["land"]), vec![(1, island(), 2), (0, ManaSource::Spell, 3)])
        .unwrap();
    let s = Schedule::plain(&[2, 1, 1]);
    let mut b = Board::new(&g, &s);
    assert_eq!(b.turns(), 3);
    b.walk(&[vec![1, 1], vec![2, 1], vec![2, 2]]);
    assert_eq!(b.count_at(0, 0, Zone::Hand), 1);
    assert_eq!(b.count_at(2, 0, Zone::Hand), 2);
    assert_eq!(b.count_at(2, 0, Zone::Library), 0);
    assert_eq!(b.count_at(2, 0, Zone::Graveyard), 0);
    assert_eq!(b.count_at(7, 0, Zone::Hand), 0);
    // Two Islands drawn by turn 2, one drop a turn: two in play.
    assert!(b.can_cast(2, &Cost::parse("{U}{U}").unwrap()));
    assert!(!b.can_cast(2, &Cost::parse("{U}{U}{U}").unwrap()));
    assert!(!b.can_cast(1, &Cost::parse("{U}{U}").unwrap()));
    assert!(b.can_cast(1, &Cost::parse("{U}").unwrap()));
    // Nothing is in play on the opening hand, but a free spell is castable.
    assert!(!b.can_cast(0, &Cost::parse("{U}").unwrap()));
    assert!(b.can_cast(0, &Cost::parse("{0}").unwrap()));
}

#[test]
fn a_surveil_land_mills_what_it_looks_at() {
    let g = Grouping::with_mana(
        q(&["land", "surveil"]),
        vec![(3, island(), 4), (0, ManaSource::Spell, 8)],
    )
    .unwrap();
    let surveil = Effect { matched_by: 1, look: 1, trigger: Trigger::LandDrop, route: Route::Everything };
    let s = Schedule::build(2, false, vec![surveil], None);
    assert_eq!(s.gaps().clone(), vec![7, 0, 1, 1, 1]);
    let mut b = Board::new(&g, &s);
    b.walk(&[vec![2, 5], vec![2, 5], vec![2, 6], vec![3, 6], vec![3, 7]]);
    assert_eq!(b.count_at(1, 1, Zone::Hand), 2);
    assert_eq!(b.count_at(2, 1, Zone::Hand), 3);
    assert_eq!(b.count_at(2, 0, Zone::Library), 1);
    assert_eq!(b.count_at(2, 0, Zone::Graveyard), 0);
    assert!(s.routes_to_graveyard());
}

#[test]
fn a_declared_priority_plays_the_land_it_names() {
    // Query 0 is any land, query 1 the Islands, query 2 the tapped Plains.
    let plains = ManaSource::Land { enters_tapped: true, produces: Palette::from_letters(&["W"]) };
    let g = Grouping::with_mana(
        q(&["land", "island", "plains"]),
        vec![(3, island(), 1), (5, plains, 1), (0, ManaSource::Spell, 3)],
    )
    .unwrap();
    let policy = LandDropPolicy::new(vec![2], 0);
    let s = Schedule::plain_under(&[2, 1], policy);
    let mut b = Board::new(&g, &s);
    // Turn 0 holds both lands; turn 1 plays the Plains, which enters tapped.
    b.walk(&[vec![1, 1, 0], vec![1, 1, 1]]);
    assert!(!b.can_cast(1, &Cost::parse("{W}").unwrap()));
    assert!(!b.can_cast(1, &Cost::parse("{U}").unwrap()));
}

#[test]
fn an_earlier_walk_leaves_no_trace() {
    let g = Grouping::with_mana(q(&["land"]), vec![(1, island(), 2), (0, ManaSource::Spell, 3)])
        .unwrap();
    let s = Schedule::plain(&[2, 1, 1]);
    let mut fresh = Board::new(&g, &s);
    fresh.walk(&[vec![1, 1], vec![2, 1], vec![2, 2]]);
    let mut reused = Board::new(&g, &s);
    reused.walk(&[vec![2, 0], vec![2, 1], vec![2, 2]]);
    reused.walk(&[vec![1, 1], vec![2, 1], vec![2, 2]]);
    for t in 0..3 {
        for zone in [Zone::Hand, Zone::Graveyard, Zone::Library] {
            assert_eq!(fresh.count_at(t, 0, zone), reused.count_at(t, 0, zone));
        }
    }
    assert_eq!(fresh.count_at(0, 0, Zone::Hand), 1);
    assert_eq!(fresh.count_at(1, 0, Zone::Hand), 2);
}
