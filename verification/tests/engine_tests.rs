use snake_engine::{Board, BotA, Collision, Movement, Point, Snake, SnakeGame};

fn snake_at(cells: &[(i32, i32)], length: usize) -> Snake {
    // cells are given tail first, head last
    let pts: Vec<Point> = cells.iter().map(|&(x, y)| Point { x, y }).collect();
    let head = *pts.last().unwrap();
    let mut rev = pts.clone();
    rev.reverse();
    Snake::new_from(100, rev, length, head)
}

#[test]
fn wall_collision_kills_and_clears_matrix() {
    let s = snake_at(&[(0, 1), (1, 1), (2, 1)], 3);
    let mut b = Board::new(3, 3, vec![s]);
    b.step(vec![Movement::Right], true);
    assert!(b.snakes()[0].is_dead());
    assert!(b.matrice().array().iter().all(|&c| c == 0));
    assert!(matches!(b.collisions()[0], Collision::Wall { id: 0 }));
}

#[test]
fn head_to_head_longer_wins() {
    let a = snake_at(&[(0, 0), (0, 1), (0, 2), (1, 2)], 4);
    let bsn = snake_at(&[(4, 1), (4, 2), (3, 2)], 3);
    let mut b = Board::new(5, 5, vec![a, bsn]);
    b.step(vec![Movement::Right, Movement::Left], true);
    assert!(!b.snakes()[0].is_dead());
    assert!(b.snakes()[1].is_dead());
    let m = b.matrice();
    assert_eq!(m.get(Point { x: 2, y: 2 }), Some(0));
}

#[test]
fn starvation_kills_at_turn_end() {
    let mut s = snake_at(&[(0, 0), (1, 0), (2, 0)], 3);
    s.health = 1;
    let mut b = Board::new(5, 5, vec![s]);
    b.step(vec![Movement::Up], true);
    assert!(b.snakes()[0].is_dead());
    assert!(b.matrice().array().iter().all(|&c| c == 0));
}

#[test]
fn food_growth_resets_health_and_grows_length() {
    let s = snake_at(&[(0, 0), (1, 0), (2, 0)], 3);
    let mut b = Board::new_from(5, 5, vec![s], &[Point { x: 3, y: 0 }]);
    b.step(vec![Movement::Right], true);
    let sn = &b.snakes()[0];
    assert_eq!(sn.health(), 100);
    assert_eq!(sn.length(), 4);
    assert_eq!(sn.body().len(), 3);
    assert!(b.food().is_empty());
}

#[test]
fn causes_death_rules() {
    assert!(Collision::Wall { id: 0 }.causes_death());
    assert!(Collision::SelfBody { id: 1 }.causes_death());
    let loc = Point { x: 0, y: 0 };
    assert!(Collision::HeadToHead { src_length: 3, dst_length: 3, id_1: 0, id_2: 1, loc }
        .causes_death());
    assert!(!Collision::HeadToHead { src_length: 4, dst_length: 3, id_1: 0, id_2: 1, loc }
        .causes_death());
}

#[test]
fn simulation_steps_are_deterministic() {
    let mk = || {
        let a = snake_at(&[(0, 0), (0, 1), (0, 2)], 3);
        let c = snake_at(&[(4, 4), (4, 3), (4, 2)], 3);
        Board::new_from(5, 5, vec![a, c], &[Point { x: 2, y: 2 }])
    };
    let mut b1 = mk();
    let mut b2 = mk();
    let movs = [Movement::Right, Movement::Left, Movement::Down, Movement::Up];
    for k in 0..4 {
        b1.step(vec![movs[k], movs[(k + 1) % 4]], true);
        b2.step(vec![movs[k], movs[(k + 1) % 4]], true);
    }
    assert_eq!(b1.matrice().array(), b2.matrice().array());
    assert_eq!(b1.food(), b2.food());
    assert_eq!(b1.snakes(), b2.snakes());
}

#[test]
fn mcts_acts_legally() {
    let a = snake_at(&[(5, 4), (5, 5)], 3);
    let c = snake_at(&[(7, 7), (7, 8)], 3);
    let board = Board::new_from(11, 11, vec![a, c], &[Point { x: 0, y: 0 }]);
    let game = SnakeGame::new(board);
    let legal = game.available_moves_snake(0);
    let mut bot = BotA::new(0, 1);
    bot.think(&game);
    for _ in 0..64 {
        bot.search_step();
    }
    let m = bot.next_move();
    assert!(legal.contains(&m));
}

#[test]
fn doomed_snake_gets_up() {
    // a snake in a 1x1 board has no open move: the doomed Up is offered
    let s = snake_at(&[(0, 0)], 1);
    let board = Board::new(1, 1, vec![s]);
    let game = SnakeGame::new(board);
    let legal = game.available_moves_snake(0);
    assert_eq!(legal, vec![Movement::Up]);
}

#[test]
fn movement_opposites() {
    assert!(Movement::Up.is_opposite(Movement::Down));
    assert!(Movement::Left.is_opposite(Movement::Right));
    assert!(!Movement::Up.is_opposite(Movement::Left));
}

#[test]
fn hash_depends_on_topology() {
    let mk = |x: i32| {
        let s = snake_at(&[(x, 0), (x, 1)], 2);
        Board::new(5, 5, vec![s])
    };
    let g1 = SnakeGame::new(mk(0));
    let g2 = SnakeGame::new(mk(0));
    let g3 = SnakeGame::new(mk(1));
    assert_eq!(g1.hash(), g2.hash());
    assert_ne!(g1.hash(), g3.hash());
}

#[test]
fn real_mode_tops_food_up() {
    // two snakes: food_min_amount is 1; an empty larder gets refilled
    let a = snake_at(&[(0, 0), (0, 1)], 2);
    let c = snake_at(&[(4, 4), (4, 3)], 2);
    let mut b = Board::new(5, 5, vec![a, c]);
    b.step(vec![Movement::Right, Movement::Left], false);
    // the larder was empty and free cells abound: exactly one item tops
    // the count up to food_min_amount
    assert_eq!(b.food().len(), 1);
    for p in b.food().iter() {
        assert!(p.x >= 0 && p.x < 5 && p.y >= 0 && p.y < 5);
        assert_eq!(b.matrice().get(*p), None);
    }
}
