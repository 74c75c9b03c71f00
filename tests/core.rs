use dungeon_core::combat::{monster_death, player_death};
use dungeon_core::dungeon::{
    create_h_tunnel, create_room, create_v_tunnel, is_blocked, item_kind, make_map, monster_kind, place_objects,
    spawn_object, wall_map, RoomPlan, Spawn, SpawnKind,
};
use dungeon_core::structs::{
    red, white, Ai, Color, DeathCallback, Fighter, Game, Item, Messages, Object, PlayerAction, Rect, Tile, TileMap,
};
use dungeon_core::turn::{
    ai_take_turn, confuse, handle_keys, move_by, move_strike_fits, move_towards, pick_item_up, play_turn,
    player_move_or_attack, run_ai_turns, PlayerIntent, PLAYER,
};

fn fighter(hp: i32, defense: i32, power: i32, on_death: DeathCallback) -> Fighter {
    Fighter { max_hp: hp, hp, defense, power, on_death }
}

fn monster(x: i32, y: i32, name: &str, f: Fighter) -> Object {
    let mut o = Object::new(x, y, 'o', name, white(), true);
    o.alive = true;
    o.fighter = Some(f);
    o.ai = Some(Ai::Basic);
    o
}

fn player_at(x: i32, y: i32) -> Object {
    let mut p = Object::new(x, y, '@', "player", white(), true);
    p.alive = true;
    p.fighter = Some(fighter(100, 15, 10, DeathCallback::Player));
    p
}

fn open_game(w: usize, h: usize) -> Game {
    let mut map = wall_map(w, h);
    create_room(Rect::new(0, 0, w as i32 - 1, h as i32 - 1), &mut map);
    Game { map, messages: Messages::new(), inventory: vec![] }
}

fn texts(game: &Game) -> Vec<String> {
    game.messages.iter().iter().map(|m| m.0.clone()).collect()
}

fn open(map: &TileMap, x: i32, y: i32) -> bool {
    x >= 0 && y >= 0 && (x as usize) < map.len() && (y as usize) < map[x as usize].len() && !map[x as usize][y as usize].blocked
}

fn reachable(map: &TileMap, from: (i32, i32), to: (i32, i32)) -> bool {
    let w = map.len();
    let h = map[0].len();
    let mut seen = vec![vec![false; h]; w];
    let mut stack = vec![from];
    while let Some((x, y)) = stack.pop() {
        if !open(map, x, y) || seen[x as usize][y as usize] {
            continue;
        }
        if (x, y) == to {
            return true;
        }
        seen[x as usize][y as usize] = true;
        stack.extend([(x + 1, y), (x - 1, y), (x, y + 1), (x, y - 1)]);
    }
    false
}

#[test]
fn tiles_have_the_documented_flags() {
    let e = Tile::empty();
    assert!(!e.blocked && !e.explored && !e.block_sight);
    let w = Tile::wall();
    assert!(w.blocked && !w.explored && w.block_sight);
}

#[test]
fn rect_new_and_center() {
    let r = Rect::new(2, 3, 5, 4);
    assert_eq!((r.x1, r.y1, r.x2, r.y2), (2, 3, 7, 7));
    assert_eq!(r.center(), (4, 5));
    assert_eq!(Rect::new(-3, -3, 0, 0).center(), (-3, -3));
    assert_eq!(Rect { x1: -5, y1: -2, x2: 0, y2: 1 }.center(), (-2, 0));
}

#[test]
fn touching_rooms_intersect() {
    let a = Rect::new(0, 0, 4, 4);
    assert!(a.intersects_with(&Rect::new(4, 0, 3, 3)));
    assert!(a.intersects_with(&Rect::new(2, 2, 1, 1)));
    assert!(!a.intersects_with(&Rect::new(5, 0, 3, 3)));
    assert!(!a.intersects_with(&Rect::new(0, 5, 3, 3)));
}

#[test]
fn object_new_is_not_alive_and_has_no_components() {
    let o = Object::new(3, 4, 'x', "thing", red(), true);
    assert_eq!(o.pos(), (3, 4));
    assert_eq!(o.name, "thing");
    assert_eq!(o.color, Color::new(255, 0, 0));
    assert!(o.blocks && !o.alive);
    assert!(o.fighter.is_none() && o.ai.is_none() && o.item.is_none());
}

#[test]
fn set_pos_and_distances() {
    let mut o = Object::new(0, 0, 'x', "thing", white(), false);
    o.set_pos(3, 4);
    assert_eq!(o.pos(), (3, 4));
    assert_eq!(o.distance_sq(0, 0), 25);
    let other = Object::new(-1, 1, 'y', "other", white(), false);
    assert_eq!(o.distance_sq_to(&other), 25);
}

#[test]
fn attack_weaker_than_defense_has_no_effect() {
    let mut game = open_game(5, 5);
    let mut a = monster(1, 1, "orc", fighter(10, 0, 10, DeathCallback::Monster));
    let mut d = monster(2, 1, "troll", fighter(30, 15, 4, DeathCallback::Monster));
    a.attack(&mut d, &mut game);
    assert_eq!(d.fighter.unwrap().hp, 30);
    assert!(d.alive);
    assert_eq!(texts(&game), vec!["orc attacks troll but it has no effect!".to_string()]);
}

#[test]
fn attack_that_kills_dispatches_death_once() {
    let mut game = open_game(5, 5);
    let mut a = monster(1, 1, "orc", fighter(10, 0, 10, DeathCallback::Monster));
    let mut d = monster(2, 1, "goblin", fighter(5, 0, 1, DeathCallback::Player));
    a.attack(&mut d, &mut game);
    assert_eq!(d.fighter.unwrap().hp, -5);
    assert!(!d.alive);
    assert_eq!(
        texts(&game),
        vec!["orc attacks goblin for 10 hit points.".to_string(), "You died!".to_string()]
    );
    d.take_damage(3, &mut game);
    assert!(!d.alive);
    assert_eq!(texts(&game).len(), 2);
}

#[test]
fn killed_monster_becomes_remains() {
    let mut game = open_game(5, 5);
    let mut a = player_at(1, 1);
    let mut d = monster(2, 1, "orc", fighter(5, 0, 3, DeathCallback::Monster));
    a.attack(&mut d, &mut game);
    assert!(!d.alive && !d.blocks);
    assert!(d.fighter.is_none() && d.ai.is_none());
    assert_eq!(d.name, "remains of orc");
    assert_eq!(d.char, '%');
    assert_eq!(d.color, Color::new(191, 0, 0));
    assert_eq!(
        texts(&game),
        vec!["player attacks orc for 10 hit points.".to_string(), "orc is dead!".to_string()]
    );
    d.take_damage(100, &mut game);
    assert_eq!(texts(&game).len(), 2);
    assert_eq!(d.name, "remains of orc");
}

#[test]
fn take_damage_ignores_non_positive_amounts() {
    let mut game = open_game(5, 5);
    let mut o = monster(1, 1, "orc", fighter(10, 0, 3, DeathCallback::Monster));
    o.take_damage(0, &mut game);
    o.take_damage(-4, &mut game);
    assert_eq!(o.fighter.unwrap().hp, 10);
    assert!(texts(&game).is_empty());
}

#[test]
fn heal_is_capped_at_max_hp() {
    let mut o = monster(1, 1, "orc", Fighter { max_hp: 100, hp: 50, defense: 0, power: 1, on_death: DeathCallback::Monster });
    o.heal(1000);
    assert_eq!(o.fighter.unwrap().hp, 100);
    let mut p = monster(1, 1, "orc", Fighter { max_hp: 100, hp: 50, defense: 0, power: 1, on_death: DeathCallback::Monster });
    p.heal(20);
    assert_eq!(p.fighter.unwrap().hp, 70);
    let mut bare = Object::new(0, 0, '!', "potion", white(), false);
    bare.heal(5);
    assert!(bare.fighter.is_none());
}

#[test]
fn death_callbacks_change_looks_and_log() {
    let mut game = open_game(5, 5);
    let mut p = player_at(1, 1);
    player_death(&mut p, &mut game);
    assert_eq!(p.char, '%');
    assert_eq!(p.name, "player");
    let mut m = monster(2, 2, "troll", fighter(1, 0, 1, DeathCallback::Monster));
    monster_death(&mut m, &mut game);
    assert_eq!(m.name, "remains of troll");
    let mut q = player_at(1, 1);
    DeathCallback::Player.callback(&mut q, &mut game);
    assert_eq!(
        texts(&game),
        vec!["You died!".to_string(), "troll is dead!".to_string(), "You died!".to_string()]
    );
    assert_eq!(game.messages.iter()[0].1, Color::new(255, 0, 0));
    assert_eq!(game.messages.iter()[1].1, Color::new(255, 127, 0));
}

#[test]
fn messages_keep_insertion_order() {
    let mut m = Messages::new();
    assert!(m.iter().is_empty());
    m.add("first".to_string(), white());
    m.add("second".to_string(), red());
    let all = m.iter();
    assert_eq!(all.len(), 2);
    assert_eq!(all[0].0, "first");
    assert_eq!(all[1], ("second".to_string(), red()));
}

#[test]
fn carving_opens_only_the_requested_cells() {
    let mut map = wall_map(10, 8);
    assert_eq!(map.len(), 10);
    assert_eq!(map[0].len(), 8);
    create_room(Rect::new(1, 1, 3, 3), &mut map);
    assert!(!map[2][2].blocked && !map[3][3].blocked);
    assert!(map[1][2].blocked && map[4][2].blocked && map[2][4].blocked);
    create_h_tunnel(6, 4, 5, &mut map);
    assert!(!map[4][5].blocked && !map[5][5].blocked && !map[6][5].blocked && map[7][5].blocked);
    create_v_tunnel(7, 5, 8, &mut map);
    assert!(!map[8][5].blocked && !map[8][7].blocked && map[8][4].blocked);
}

fn plan(x: i32, y: i32, w: i32, h: i32, horizontal_first: bool, spawns: Vec<Spawn>) -> RoomPlan {
    RoomPlan { room: Rect::new(x, y, w, h), horizontal_first, spawns }
}

#[test]
fn generated_rooms_are_apart_and_connected() {
    let plans = vec![
        plan(1, 1, 6, 5, true, vec![Spawn { x: 3, y: 3, kind: SpawnKind::Orc }]),
        plan(4, 3, 6, 6, true, vec![]),
        plan(20, 2, 7, 6, true, vec![Spawn { x: 22, y: 4, kind: SpawnKind::Troll }, Spawn { x: 22, y: 4, kind: SpawnKind::Orc }]),
        plan(8, 20, 6, 6, false, vec![Spawn { x: 10, y: 22, kind: SpawnKind::Loot(Item::Heal) }]),
        plan(35, 25, 8, 8, true, vec![]),
        plan(30, 15, 9, 6, false, vec![Spawn { x: 1, y: 1, kind: SpawnKind::Orc }]),
    ];
    let mut objects = vec![player_at(0, 0)];
    let (map, rooms) = make_map(40, 30, &plans, &mut objects);
    assert_eq!(map.len(), 40);
    assert!(map.iter().all(|c| c.len() == 30));
    assert_eq!(rooms.len(), 4);
    for i in 0..rooms.len() {
        for j in 0..rooms.len() {
            if i != j {
                assert!(!rooms[i].intersects_with(&rooms[j]));
            }
        }
    }
    let start = rooms[0].center();
    assert_eq!(objects[PLAYER].pos(), start);
    for r in &rooms {
        assert!(reachable(&map, start, r.center()));
    }
    // the first room spawns nothing; stacked and outside spawns are skipped
    assert_eq!(objects.len(), 3);
    assert_eq!(objects[1].name, "troll");
    assert_eq!(objects[1].pos(), (22, 4));
    assert_eq!(objects[2].name, "healing potion");
    assert_eq!(objects[2].item, Some(Item::Heal));
}

#[test]
fn rooms_off_the_map_are_skipped() {
    let plans = vec![plan(35, 1, 6, 6, true, vec![]), plan(0, 0, 1, 5, true, vec![]), plan(2, 2, 4, 4, true, vec![])];
    let mut objects = vec![player_at(0, 0)];
    let (map, rooms) = make_map(40, 10, &plans, &mut objects);
    assert_eq!(rooms.len(), 1);
    assert_eq!(rooms[0], Rect::new(2, 2, 4, 4));
    assert_eq!(objects[0].pos(), (4, 4));
    assert!(!map[4][4].blocked);
}

#[test]
fn no_rooms_leave_an_all_wall_map() {
    let mut objects = vec![player_at(7, 7)];
    let (map, rooms) = make_map(5, 5, &vec![], &mut objects);
    assert!(rooms.is_empty());
    assert!(map.iter().all(|c| c.iter().all(|t| t.blocked)));
    assert_eq!(objects[0].pos(), (7, 7));
}

#[test]
fn spawned_entities_match_their_kind() {
    let orc = spawn_object(&Spawn { x: 1, y: 2, kind: SpawnKind::Orc });
    assert_eq!((orc.name.as_str(), orc.char, orc.pos()), ("orc", 'o', (1, 2)));
    assert_eq!(orc.fighter, Some(Fighter { max_hp: 10, hp: 10, defense: 0, power: 3, on_death: DeathCallback::Monster }));
    assert!(orc.alive && orc.blocks);
    let troll = spawn_object(&Spawn { x: 1, y: 2, kind: SpawnKind::Troll });
    assert_eq!(troll.fighter.unwrap().max_hp, 16);
    let scroll = spawn_object(&Spawn { x: 1, y: 2, kind: SpawnKind::Loot(Item::Confuse) });
    assert_eq!(scroll.name, "scroll of confusion");
    assert!(!scroll.blocks && scroll.item == Some(Item::Confuse));
}

#[test]
fn place_objects_skips_blocked_cells() {
    let game = open_game(8, 8);
    let mut objects = vec![player_at(2, 2)];
    let spawns = vec![
        Spawn { x: 2, y: 2, kind: SpawnKind::Orc },
        Spawn { x: 3, y: 3, kind: SpawnKind::Orc },
        Spawn { x: 0, y: 0, kind: SpawnKind::Orc },
    ];
    place_objects(Rect::new(0, 0, 7, 7), &spawns, &game.map, &mut objects);
    assert_eq!(objects.len(), 2);
    assert_eq!(objects[1].pos(), (3, 3));
    assert!(is_blocked(3, 3, &game.map, &objects));
    assert!(is_blocked(0, 0, &game.map, &objects));
    assert!(is_blocked(-1, 2, &game.map, &objects));
    assert!(!is_blocked(4, 4, &game.map, &objects));
}

#[test]
fn player_move_into_open_cell_takes_turn() {
    let mut game = open_game(6, 6);
    let mut objects = vec![player_at(2, 2)];
    let action = player_move_or_attack(1, 0, &mut game, &mut objects);
    assert_eq!(action, PlayerAction::TookTurn);
    assert_eq!(objects[PLAYER].pos(), (3, 2));
}

#[test]
fn player_move_into_wall_does_not_take_turn() {
    let mut game = open_game(6, 6);
    let mut objects = vec![player_at(1, 1)];
    let action = player_move_or_attack(-1, 0, &mut game, &mut objects);
    assert_eq!(action, PlayerAction::DidntTakeTurn);
    assert_eq!(objects[PLAYER].pos(), (1, 1));
}

#[test]
fn player_move_into_monster_attacks() {
    let mut game = open_game(6, 6);
    let mut objects = vec![player_at(2, 2), monster(3, 2, "orc", fighter(10, 0, 3, DeathCallback::Monster))];
    let action = player_move_or_attack(1, 0, &mut game, &mut objects);
    assert_eq!(action, PlayerAction::TookTurn);
    assert_eq!(objects[PLAYER].pos(), (2, 2));
    assert!(!objects[1].alive);
    assert_eq!(texts(&game)[0], "player attacks orc for 10 hit points.");
}

#[test]
fn move_by_and_move_towards() {
    let game = open_game(10, 10);
    let mut objects = vec![player_at(1, 1), monster(8, 2, "orc", fighter(10, 0, 3, DeathCallback::Monster))];
    assert!(move_by(1, -1, 1, &game.map, &mut objects));
    assert_eq!(objects[1].pos(), (7, 3));
    move_towards(1, 1, 1, &game.map, &mut objects);
    assert_eq!(objects[1].pos(), (6, 3));
    move_towards(1, 5, 2, &game.map, &mut objects);
    assert_eq!(objects[1].pos(), (5, 2));
    assert!(!move_by(1, -4, -1, &game.map, &mut objects));
    assert_eq!(objects[1].pos(), (5, 2));
}

fn all_visible(w: usize, h: usize) -> Vec<Vec<bool>> {
    vec![vec![true; h]; w]
}

#[test]
fn basic_ai_chases_then_attacks() {
    let mut game = open_game(10, 10);
    let mut objects = vec![player_at(1, 1), monster(4, 1, "orc", fighter(10, 0, 20, DeathCallback::Monster))];
    let fov = all_visible(10, 10);
    ai_take_turn(1, &fov, (0, 0), &mut game, &mut objects);
    assert_eq!(objects[1].pos(), (3, 1));
    ai_take_turn(1, &fov, (0, 0), &mut game, &mut objects);
    assert_eq!(objects[1].pos(), (2, 1));
    ai_take_turn(1, &fov, (0, 0), &mut game, &mut objects);
    assert_eq!(objects[1].pos(), (2, 1));
    assert_eq!(objects[PLAYER].fighter.unwrap().hp, 95);
    assert_eq!(texts(&game), vec!["orc attacks player for 5 hit points.".to_string()]);
}

#[test]
fn basic_ai_out_of_sight_waits() {
    let mut game = open_game(10, 10);
    let mut objects = vec![player_at(1, 1), monster(4, 1, "orc", fighter(10, 0, 20, DeathCallback::Monster))];
    let fov = vec![vec![false; 10]; 10];
    ai_take_turn(1, &fov, (0, 0), &mut game, &mut objects);
    assert_eq!(objects[1].pos(), (4, 1));
}

#[test]
fn confusion_wears_off_after_its_last_turn() {
    let mut game = open_game(10, 10);
    let mut objects = vec![player_at(1, 1), monster(5, 5, "orc", fighter(10, 0, 3, DeathCallback::Monster))];
    confuse(1, 1, &mut objects);
    assert_eq!(objects[1].ai, Some(Ai::Confused { previous_ai: Box::new(Ai::Basic), num_turns: 1 }));
    let fov = all_visible(10, 10);
    ai_take_turn(1, &fov, (1, -1), &mut game, &mut objects);
    assert_eq!(objects[1].pos(), (6, 4));
    assert_eq!(objects[1].ai, Some(Ai::Basic));
    assert_eq!(texts(&game), vec!["The orc is no longer confused!".to_string()]);
}

#[test]
fn confusion_counts_down() {
    let mut game = open_game(10, 10);
    let mut objects = vec![player_at(1, 1), monster(5, 5, "orc", fighter(10, 0, 3, DeathCallback::Monster))];
    confuse(1, 3, &mut objects);
    let fov = all_visible(10, 10);
    ai_take_turn(1, &fov, (0, 1), &mut game, &mut objects);
    assert_eq!(objects[1].ai, Some(Ai::Confused { previous_ai: Box::new(Ai::Basic), num_turns: 2 }));
    assert_eq!(objects[1].pos(), (5, 6));
    assert!(texts(&game).is_empty());
}

#[test]
fn dead_entities_take_no_ai_turn() {
    let mut game = open_game(10, 10);
    let mut dead = monster(4, 1, "orc", fighter(10, 0, 20, DeathCallback::Monster));
    dead.alive = false;
    let mut objects = vec![player_at(1, 1), dead];
    let fov = all_visible(10, 10);
    run_ai_turns(&fov, &vec![(0, 0), (0, 0)], &mut game, &mut objects);
    assert_eq!(objects[1].pos(), (4, 1));
}

#[test]
fn pick_up_moves_item_to_inventory() {
    let mut game = open_game(6, 6);
    let mut potion = Object::new(2, 2, '!', "healing potion", white(), false);
    potion.item = Some(Item::Heal);
    let mut objects = vec![player_at(2, 2), potion];
    let action = handle_keys(PlayerIntent::PickUp, &mut game, &mut objects);
    assert_eq!(action, PlayerAction::DidntTakeTurn);
    assert_eq!(objects.len(), 1);
    assert_eq!(game.inventory.len(), 1);
    assert_eq!(texts(&game), vec!["You picked up a healing potion!".to_string()]);
}

#[test]
fn pick_up_with_full_inventory_only_reports() {
    let mut game = open_game(6, 6);
    for _ in 0..26 {
        game.inventory.push(Object::new(0, 0, '!', "stone", white(), false));
    }
    let mut potion = Object::new(2, 2, '!', "healing potion", white(), false);
    potion.item = Some(Item::Heal);
    let mut objects = vec![player_at(2, 2), potion];
    pick_item_up(1, &mut game, &mut objects);
    assert_eq!(objects.len(), 2);
    assert_eq!(game.inventory.len(), 26);
    assert_eq!(texts(&game), vec!["Your inventory is full, cannot pick up healing potion.".to_string()]);
}

#[test]
fn intents_of_a_dead_player_do_nothing() {
    let mut game = open_game(6, 6);
    let mut p = player_at(2, 2);
    p.alive = false;
    let mut objects = vec![p];
    assert_eq!(handle_keys(PlayerIntent::Move { dx: 1, dy: 0 }, &mut game, &mut objects), PlayerAction::DidntTakeTurn);
    assert_eq!(objects[0].pos(), (2, 2));
    assert_eq!(handle_keys(PlayerIntent::Exit, &mut game, &mut objects), PlayerAction::Exit);
    assert_eq!(handle_keys(PlayerIntent::Wait, &mut game, &mut objects), PlayerAction::DidntTakeTurn);
    assert_eq!(handle_keys(PlayerIntent::ToggleFullscreen, &mut game, &mut objects), PlayerAction::DidntTakeTurn);
}

#[test]
fn a_full_turn_lets_monsters_act_after_the_player() {
    let mut game = open_game(10, 10);
    let mut objects = vec![player_at(1, 1), monster(6, 1, "orc", fighter(10, 0, 3, DeathCallback::Monster))];
    let fov = all_visible(10, 10);
    let steps = vec![(0, 0), (0, 0)];
    let action = play_turn(PlayerIntent::Move { dx: 1, dy: 0 }, &fov, &steps, &mut game, &mut objects);
    assert_eq!(action, PlayerAction::TookTurn);
    assert_eq!(objects[0].pos(), (2, 1));
    assert_eq!(objects[1].pos(), (5, 1));
    let blocked = play_turn(PlayerIntent::Move { dx: 0, dy: -1 }, &fov, &steps, &mut game, &mut objects);
    assert_eq!(blocked, PlayerAction::DidntTakeTurn);
    assert_eq!(objects[1].pos(), (5, 1));
}

#[test]
fn spawn_kinds_follow_the_rolls() {
    assert_eq!(monster_kind(0), SpawnKind::Orc);
    assert_eq!(monster_kind(79), SpawnKind::Orc);
    assert_eq!(monster_kind(80), SpawnKind::Troll);
    assert_eq!(item_kind(69), SpawnKind::Loot(Item::Heal));
    assert_eq!(item_kind(70), SpawnKind::Loot(Item::Lightning));
    assert_eq!(item_kind(85), SpawnKind::Loot(Item::Fireball));
    assert_eq!(item_kind(99), SpawnKind::Loot(Item::Confuse));
}

#[test]
fn confusing_an_entity_without_ai_does_nothing() {
    let mut objects = vec![player_at(1, 1), Object::new(2, 2, '!', "potion", white(), false)];
    confuse(1, 5, &mut objects);
    assert!(objects[1].ai.is_none());
}

#[test]
fn strike_overflow_is_detected() {
    let mut big = player_at(1, 1);
    big.fighter = Some(fighter(100, 0, i32::MAX, DeathCallback::Player));
    let weak = monster(2, 1, "orc", fighter(i32::MIN + 1, -1, 3, DeathCallback::Monster));
    let objects = vec![big, weak];
    assert!(!move_strike_fits(1, 0, &objects));
    assert!(move_strike_fits(0, 1, &objects));
}

#[test]
fn all_cells_outside_rooms_and_corridors_stay_walls() {
    let plans = vec![plan(1, 1, 4, 4, true, vec![]), plan(10, 1, 4, 4, true, vec![])];
    let mut objects = vec![player_at(0, 0)];
    let (map, rooms) = make_map(20, 10, &plans, &mut objects);
    assert_eq!(rooms.len(), 2);
    let open_count = map.iter().map(|c| c.iter().filter(|t| !t.blocked).count()).sum::<usize>();
    // two 3x3 interiors plus the corridor cells between them in row 3
    assert_eq!(open_count, 9 + 9 + 6);
    assert!(map[0][3].blocked && map[15][3].blocked);
}
