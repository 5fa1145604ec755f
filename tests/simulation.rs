use tower_defence_game::enemy::{health_scale, Enemy, START_HEALTH};
use tower_defence_game::geometry::{isqrt, Point};
use tower_defence_game::path::{fit_path, HALF_HEIGHT, HALF_WIDTH};
use tower_defence_game::spawner::SpawnTimer;
use tower_defence_game::tower::{fire, nearest_enemy, resolve_combat, Tower};
use tower_defence_game::world::{World, START_RESOURCES};

fn pt(x: i64, y: i64) -> Point {
    Point { x, y }
}

fn enemy_at(id: u64, x: i64, y: i64) -> Enemy {
    Enemy::new(id, pt(x, y), pt(0, 0))
}

#[test]
fn scale_at_full_half_and_no_health() {
    assert_eq!(health_scale(1_000_000), 1200);
    assert_eq!(health_scale(0), 400);
    assert_eq!(health_scale(500_000), 800);
}

#[test]
fn scale_extrapolates_below_zero() {
    assert_eq!(health_scale(-1), 399);
    assert_eq!(health_scale(-1250), 399);
    assert_eq!(health_scale(-1251), 398);
    assert_eq!(health_scale(2_000_000), 2000);
}

#[test]
fn isqrt_exact_and_between_squares() {
    assert_eq!(isqrt(0), 0);
    assert_eq!(isqrt(2_500_000_000), 50_000);
    assert_eq!(isqrt(2_500_000_001), 50_000);
    assert_eq!(isqrt(15), 3);
}

#[test]
fn fit_path_scales_each_axis_to_its_extent() {
    let r = fit_path(&vec![pt(1000, -500), pt(-2000, 250)]);
    assert_eq!(r, vec![pt(200_000, -290_000), pt(-400_000, 145_000)]);
}

#[test]
fn fit_path_leaves_flat_axis_alone() {
    let r = fit_path(&vec![pt(3, 0), pt(-7, 0), pt(1, 0)]);
    assert_eq!(r.len(), 3);
    assert_eq!(r[1], pt(-HALF_WIDTH, 0));
    assert!(r.iter().all(|p| p.y == 0));
}

#[test]
fn fit_path_keeps_length_and_extent() {
    let samples: Vec<Point> = (0..30).map(|i| pt(i * 37 - 500, 1000 - i * i)).collect();
    let r = fit_path(&samples);
    assert_eq!(r.len(), 30);
    assert!(r.iter().all(|p| p.x.abs() <= HALF_WIDTH && p.y.abs() <= HALF_HEIGHT));
}

#[test]
fn timer_fires_and_carries_remainder() {
    let mut t = SpawnTimer::new(1500);
    assert!(!t.tick(1000));
    assert!(t.tick(600));
    assert_eq!(t.elapsed_ms, 100);
    assert!(t.tick(4000));
    assert_eq!(t.elapsed_ms, 1100);
}

#[test]
fn timer_cadence_over_many_frames() {
    let mut t = SpawnTimer::new(1500);
    let mut fired = 0;
    for _ in 0..100 {
        if t.tick(160) {
            fired += 1;
        }
    }
    assert_eq!(fired, 16000 / 1500);
}

#[test]
fn enemy_advances_and_moves_on_toward_next_waypoint() {
    let path = vec![pt(0, 0), pt(100_000, 0)];
    let e = enemy_at(0, 500, 0).step(&path, 16);
    assert_eq!(e.mover.0, 1);
    assert_eq!(e.pos, pt(2100, 0));
    assert_eq!(e.heading, pt(99_500, 0));
}

#[test]
fn enemy_stays_when_last_waypoint_reached() {
    let path = vec![pt(0, 0)];
    let e = enemy_at(0, 500, 0).step(&path, 16);
    assert_eq!(e.mover.0, 1);
    assert_eq!(e.pos, pt(500, 0));
    assert_eq!(e.heading, pt(0, 0));
}

#[test]
fn enemy_moves_towards_waypoint() {
    let path = vec![pt(30_000, 40_000)];
    let e = enemy_at(0, 0, 0).step(&path, 100);
    assert_eq!(e.mover.0, 0);
    assert_eq!(e.pos, pt(6000, 8000));
    assert_eq!(e.heading, pt(30_000, 40_000));
}

#[test]
fn enemy_moves_full_step_past_waypoint() {
    let path = vec![pt(5000, 0)];
    let e = enemy_at(0, 0, 0).step(&path, 100);
    assert_eq!(e.pos, pt(10_000, 0));
    assert_eq!(e.mover.0, 0);
    let back = e.step(&path, 10);
    assert_eq!(back.pos, pt(9000, 0));
    assert_eq!(back.heading, pt(-5000, 0));
}

#[test]
fn enemy_on_waypoint_with_same_next_does_not_move() {
    let path = vec![pt(0, 0), pt(0, 0), pt(7000, 0)];
    let e = enemy_at(0, 0, 0).step(&path, 16);
    assert_eq!(e.mover.0, 1);
    assert_eq!(e.pos, pt(0, 0));
}

#[test]
fn enemy_move_is_kept_within_coordinate_limit() {
    let path = vec![pt(999_999_000, 0), pt(1_000_000_000, 0)];
    let e = enemy_at(0, 999_000_000, 0).step(&path, 1_000_000);
    assert_eq!(e.pos, pt(1_000_000_000, 0));
}

#[test]
fn nearest_picks_first_of_tied() {
    let enemies = vec![enemy_at(1, 1000, 0), enemy_at(2, -1000, 0), enemy_at(3, 5000, 0)];
    assert_eq!(nearest_enemy(&enemies, pt(0, 0)), Some(0));
    assert_eq!(nearest_enemy(&enemies, pt(4000, 0)), Some(2));
    assert_eq!(nearest_enemy(&Vec::new(), pt(0, 0)), None);
}

#[test]
fn tied_enemies_only_one_damaged() {
    let mut enemies = vec![enemy_at(1, 1000, 0), enemy_at(2, -1000, 0)];
    for _ in 0..5 {
        fire(&mut enemies, pt(0, 0), 100);
    }
    assert_eq!(enemies[0].health.0, START_HEALTH - 500);
    assert_eq!(enemies[1].health.0, START_HEALTH);
}

#[test]
fn damage_in_range_and_out_of_range() {
    let towers = vec![Tower::new_at(pt(0, 0))];
    let mut near = vec![enemy_at(1, 75_000, 0)];
    resolve_combat(&mut near, &towers, 16);
    assert_eq!(near[0].health.0, START_HEALTH - 1600);
    let mut far = vec![enemy_at(2, 151_000, 0)];
    resolve_combat(&mut far, &towers, 16);
    assert_eq!(far[0].health.0, START_HEALTH);
}

#[test]
fn world_spawns_on_period() {
    let mut w = World::new(vec![pt(0, 0), pt(1_000_000, 0)], Vec::new());
    assert_eq!(w.resources.0, START_RESOURCES);
    assert!(!w.tick(1000));
    assert!(w.enemies.is_empty());
    assert!(w.tick(500));
    assert_eq!(w.enemies.len(), 1);
    assert_eq!(w.enemies[0].id, 0);
    assert_eq!(w.enemies[0].mover.0, 1);
    assert_eq!(w.enemies[0].pos, pt(50_000, 0));
    assert_eq!(w.enemies[0].heading, pt(1_000_000, 0));
}

#[test]
fn world_spawn_count_follows_cadence() {
    let mut w = World::new(vec![pt(0, 0), pt(1_000_000, 0)], Vec::new());
    let mut spawned = 0;
    for _ in 0..200 {
        if w.tick(16) {
            spawned += 1;
        }
    }
    assert_eq!(spawned, 3200 / 1500);
    assert_eq!(w.next_id, 2);
}

#[test]
fn enemy_reaching_goal_is_removed_same_tick() {
    let mut w = World::new(vec![pt(0, 0)], Vec::new());
    assert!(w.tick(1500));
    assert!(w.enemies.is_empty());
    assert_eq!(w.next_id, 1);
}

#[test]
fn enemy_without_health_is_removed() {
    let mut w = World::new(vec![pt(0, 0), pt(1_000_000, 0)], vec![Tower::new_at(pt(1_000_000, 0))]);
    assert!(w.tick(10_000));
    assert!(w.enemies.is_empty());
    let mut w2 = World::new(vec![pt(0, 0), pt(1_000_000, 0)], vec![Tower::new_at(pt(1_000_000, 0))]);
    assert!(w2.tick(9_999));
    assert_eq!(w2.enemies.len(), 1);
    assert_eq!(w2.enemies[0].health.0, 100);
}

#[test]
fn waypoint_never_decreases() {
    let mut w = World::new(vec![pt(0, 0), pt(50_000, 0), pt(50_000, 50_000)], Vec::new());
    let mut last = 0;
    for _ in 0..400 {
        w.tick(16);
        if let Some(e) = w.enemies.iter().find(|e| e.id == 0) {
            assert!(e.mover.0 >= last && e.mover.0 < 3);
            last = e.mover.0;
        }
    }
    assert_eq!(last, 2);
}

#[test]
fn removing_absent_id_changes_nothing() {
    let mut w = World::new(vec![pt(0, 0), pt(1_000_000, 0)], Vec::new());
    w.tick(1500);
    w.tick(1500);
    let before = w.enemies.clone();
    w.remove_enemy(99);
    assert_eq!(w.enemies, before);
    w.remove_enemy(0);
    assert_eq!(w.enemies.len(), 1);
    assert_eq!(w.enemies[0].id, 1);
    w.remove_enemy(0);
    assert_eq!(w.enemies.len(), 1);
}

#[test]
fn starting_towers_stand_next_to_waypoints() {
    let path = vec![pt(10_000, 20_000), pt(-30_000, 5_000)];
    let mut w = World::new(path.clone(), Vec::new());
    w.add_starting_towers(&vec![pt(100, -200), pt(0, 0), pt(-100_000, 100_000)]);
    assert_eq!(w.towers.len(), 3);
    let offsets = [pt(100, -200), pt(0, 0), pt(-100_000, 100_000)];
    for (t, o) in w.towers.iter().zip(offsets.iter()) {
        assert!(path.iter().any(|p| t.pos == pt(p.x + o.x, p.y + o.y)));
    }
    w.add_tower(pt(1, 2));
    assert_eq!(w.towers[3].pos, pt(1, 2));
}
