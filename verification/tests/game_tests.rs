use laberinto::enemy::{getGatos, update_enemies, Enemy, Hunt};
use laberinto::game::{next_screen, Screen};

#[test]
fn enemies_start_uncollected_and_can_be_collected() {
    let mut e = Enemy::new((250.0f32, 250.0f32));
    assert!(!e.collected);
    e.collect();
    assert!(e.collected);
    assert_eq!(e.pos, (250.0, 250.0));
}

#[test]
fn a_round_catches_the_near_enemies() {
    let mut hunt = Hunt::new(vec![Enemy::new(1u8), Enemy::new(2u8), Enemy::new(3u8)]);
    assert_eq!(getGatos(&hunt), 0);
    update_enemies(&mut hunt, &vec![false, true, false]);
    assert_eq!(getGatos(&hunt), 1);
    let left: Vec<u8> = hunt.enemies().iter().map(|e| e.pos).collect();
    assert_eq!(left, vec![1, 3]);
    assert!(hunt.enemies().iter().all(|e| !e.collected));
    update_enemies(&mut hunt, &vec![true, true]);
    assert_eq!(getGatos(&hunt), 3);
    assert!(hunt.enemies().is_empty());
    update_enemies(&mut hunt, &vec![]);
    assert_eq!(getGatos(&hunt), 3);
}

#[test]
fn caught_and_remaining_add_up() {
    let mut hunt = Hunt::new((0..5).map(|_| Enemy::new(0u8)).collect());
    for near in [vec![true, false, false, true, false], vec![false, false, false], vec![false, true, true]] {
        update_enemies(&mut hunt, &near);
        assert_eq!(getGatos(&hunt) as usize + hunt.enemies().len(), 5);
    }
    assert_eq!(getGatos(&hunt), 4);
}

#[test]
fn enemies_already_collected_leave_uncounted() {
    let mut caught = Enemy::new(9u8);
    caught.collect();
    let mut hunt = Hunt::new(vec![caught, Enemy::new(1u8)]);
    update_enemies(&mut hunt, &vec![true, false]);
    assert_eq!(getGatos(&hunt), 0);
    assert_eq!(hunt.enemies().len(), 1);
    assert_eq!(hunt.enemies()[0].pos, 1);
}

#[test]
fn screens_follow_the_game() {
    assert_eq!(next_screen(Screen::Instructions, false, 0), Screen::Instructions);
    assert_eq!(next_screen(Screen::Instructions, true, 0), Screen::Playing);
    assert_eq!(next_screen(Screen::Playing, true, 2), Screen::Playing);
    assert_eq!(next_screen(Screen::Playing, false, 3), Screen::Winner);
    assert_eq!(next_screen(Screen::Playing, false, 7), Screen::Winner);
    assert_eq!(next_screen(Screen::Winner, false, 3), Screen::Winner);
    assert_eq!(next_screen(Screen::Winner, true, 3), Screen::Instructions);
    assert_eq!(next_screen(Screen::Instructions, true, 3), Screen::Playing);
}

#[test]
fn a_repeated_round_changes_nothing() {
    let positions = [0u8, 5, 9, 12];
    let mut hunt = Hunt::new(positions.iter().map(|&p| Enemy::new(p)).collect());
    let is_near = |p: u8| p > 8;
    for _ in 0..3 {
        let near: Vec<bool> = hunt.enemies().iter().map(|e| is_near(e.pos)).collect();
        update_enemies(&mut hunt, &near);
        assert_eq!(getGatos(&hunt), 2);
        let left: Vec<u8> = hunt.enemies().iter().map(|e| e.pos).collect();
        assert_eq!(left, vec![0, 5]);
    }
}

#[test]
fn catch_count_is_the_sum_of_the_rounds() {
    let mut hunt = Hunt::new((0..6).map(|i| Enemy::new(i)).collect());
    let rounds = [vec![true, false, false, false, false, false], vec![false, true, true, false, false], vec![false, false, false], vec![true, true, true]];
    let mut total = 0;
    for near in rounds.iter() {
        total += near.iter().filter(|&&b| b).count() as u32;
        update_enemies(&mut hunt, near);
        assert_eq!(getGatos(&hunt), total);
    }
    assert_eq!(getGatos(&hunt), 6);
    assert!(hunt.enemies().is_empty());
}
