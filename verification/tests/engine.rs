use zombie_agent::geometry::{Dir, Point};
use zombie_agent::sampler::ActionGen;
use zombie_agent::search::{eval_plan, find_solution};
use zombie_agent::world::{Human, State, Zombie};

#[test]
fn test_move() {
    let mut zombie = Point { x: 1500, y: 6251 };
    let human = Point { x: 0, y: 4500 };
    zombie.move_to(&human, 400);
    assert!(zombie.x == 1239);
    assert!(zombie.y == 5947);
}

#[test]
fn test_gen() {
    let mut action_gen = ActionGen::new();
    action_gen.gen();
    println!("{:?}", action_gen.actions);
}

#[test]
fn test_case() {
    let player = Human {
        id: -1,
        pos: Point { x: 1157, y: 427 },
    };
    let humans = vec![Human {
        id: 0,
        pos: Point { x: 8000, y: 4500 },
    }];

    let zombies = vec![
        Zombie {
            id: 0,
            pos: Point { x: 5411, y: 5358 },
            target: Point { x: 0, y: 0 },
        },
        Zombie {
            id: 1,
            pos: Point { x: 10580, y: 5357 },
            target: Point { x: 0, y: 0 },
        },
    ];
    let mut action_gen = ActionGen::new();
    let state = State {
        player,
        humans,
        zombies,
        score: 0,
    };
    find_solution(state, &mut action_gen);
}

#[test]
fn test_range_exact() {
    let a = Point { x: 0, y: 0 };
    assert_eq!(a.range(&Point { x: 3, y: 4 }), 5);
    // Truncation, not rounding: sqrt(2) = 1.41... becomes 1.
    assert_eq!(a.range(&Point { x: 1, y: 1 }), 1);
    assert_eq!(a.range(&Point { x: 0, y: 0 }), 0);
    assert_eq!(Point { x: 1500, y: 6251 }.range(&Point { x: 0, y: 4500 }), 2305);
}

#[test]
fn test_move_snap() {
    // Within the step distance the mover lands exactly on the target.
    let mut p = Point { x: 100, y: 100 };
    p.move_to(&Point { x: 150, y: 100 }, 400);
    assert_eq!(p, Point { x: 150, y: 100 });
    // At exactly the step distance it still snaps.
    let mut q = Point { x: 0, y: 0 };
    q.move_to(&Point { x: 400, y: 0 }, 400);
    assert_eq!(q, Point { x: 400, y: 0 });
}

#[test]
fn test_move_dir_values() {
    let mut p = Point { x: 1000, y: 1000 };
    p.move_to_dir(Dir::East, 500);
    assert_eq!(p, Point { x: 1500, y: 1000 });
    let mut q = Point { x: 1000, y: 1000 };
    q.move_to_dir(Dir::NorthEast, 500);
    // 500 / sqrt(2) = 353.55..., truncated toward zero after the add.
    assert_eq!(q, Point { x: 1353, y: 1353 });
    let mut r = Point { x: 1000, y: 1000 };
    r.move_to_dir(Dir::SouthWest, 500);
    // 1000 - 353.55... = 646.44..., truncated toward zero.
    assert_eq!(r, Point { x: 646, y: 646 });
    let mut s = Point { x: 1000, y: 1000 };
    s.move_to_dir(Dir::Stay, 500);
    assert_eq!(s, Point { x: 1000, y: 1000 });
}

// One tick computed by hand: the zombie hunts the closer agent, moves 400
// toward it, and dies inside the kill radius; the score gains one kill
// squared.
#[test]
fn test_one_tick_exact() {
    let mut state = State {
        player: Human {
            id: -1,
            pos: Point { x: 4000, y: 0 },
        },
        humans: vec![Human {
            id: 0,
            pos: Point { x: 0, y: 0 },
        }],
        zombies: vec![Zombie {
            id: 7,
            pos: Point { x: 5000, y: 0 },
            target: Point { x: 0, y: 0 },
        }],
        score: 0,
    };
    state.next(Dir::Stay, 500);
    assert_eq!(state.player.pos, Point { x: 4000, y: 0 });
    assert_eq!(state.zombies.len(), 0);
    assert_eq!(state.humans.len(), 1);
    assert_eq!(state.score, 1);
}

// The transition is a pure function of its inputs: the same state, direction
// and step distance give bit-identical outcomes.
#[test]
fn test_tick_deterministic() {
    let make = || State {
        player: Human {
            id: -1,
            pos: Point { x: 3000, y: 2000 },
        },
        humans: vec![Human {
            id: 0,
            pos: Point { x: 9000, y: 4500 },
        }],
        zombies: vec![Zombie {
            id: 0,
            pos: Point { x: 6000, y: 6000 },
            target: Point { x: 0, y: 0 },
        }],
        score: 0,
    };
    let mut a = make();
    let mut b = make();
    a.next(Dir::NorthEast, 1000);
    b.next(Dir::NorthEast, 1000);
    assert_eq!(a.player.pos, b.player.pos);
    assert_eq!(a.humans, b.humans);
    assert_eq!(a.zombies, b.zombies);
    assert_eq!(a.score, b.score);
}

// Once the humans are gone the score is the sentinel minimum on every later
// tick, also on ticks that kill further zombies.
#[test]
fn test_score_floor() {
    let mut state = State {
        player: Human {
            id: -1,
            pos: Point { x: 0, y: 0 },
        },
        humans: vec![],
        zombies: vec![Zombie {
            id: 0,
            pos: Point { x: 2500, y: 0 },
            target: Point { x: 0, y: 0 },
        }],
        score: 0,
    };
    state.next(Dir::Stay, 500);
    // Zombie at 2100: outside the radius, survives; humans empty pins score.
    assert_eq!(state.zombies.len(), 1);
    assert_eq!(state.score, i64::MIN);
    state.next(Dir::Stay, 500);
    // Zombie at 1700: killed this tick, yet the score stays pinned.
    assert_eq!(state.zombies.len(), 0);
    assert_eq!(state.score, i64::MIN);
    state.next(Dir::Stay, 500);
    assert_eq!(state.score, i64::MIN);
}

// The kill radius is a strict bound: a zombie survives only strictly beyond
// floating distance 2000, so at exactly 2000 (1200^2 + 1600^2 = 2000^2) it
// is removed, and the human under it is not caught (only surviving zombies
// catch).
#[test]
fn test_kill_radius_boundary_removed() {
    let mut state = State {
        player: Human {
            id: -1,
            pos: Point { x: 0, y: 0 },
        },
        humans: vec![
            Human {
                id: 0,
                pos: Point { x: 1200, y: 1600 },
            },
            Human {
                id: 1,
                pos: Point { x: 9000, y: 8000 },
            },
        ],
        zombies: vec![Zombie {
            id: 0,
            pos: Point { x: 1200, y: 1600 },
            target: Point { x: 0, y: 0 },
        }],
        score: 0,
    };
    state.next(Dir::Stay, 500);
    // The zombie sits on its own target (the human under it), so it does not
    // move; its distance to the agent is exactly 2000.0, not strictly more,
    // and it is removed.
    assert_eq!(state.zombies.len(), 0);
    assert_eq!(state.humans.len(), 2);
    assert_eq!(state.score, 1);
}

// A hair beyond the radius (1200^2 + 1601^2 > 2000^2, floating distance
// 2000.0008...) the zombie survives, and it catches the human under it.
#[test]
fn test_kill_radius_beyond_survives() {
    let mut state = State {
        player: Human {
            id: -1,
            pos: Point { x: 0, y: 0 },
        },
        humans: vec![
            Human {
                id: 0,
                pos: Point { x: 1200, y: 1601 },
            },
            Human {
                id: 1,
                pos: Point { x: 9000, y: 8000 },
            },
        ],
        zombies: vec![Zombie {
            id: 0,
            pos: Point { x: 1200, y: 1601 },
            target: Point { x: 0, y: 0 },
        }],
        score: 0,
    };
    state.next(Dir::Stay, 500);
    assert_eq!(state.zombies.len(), 1);
    assert_eq!(state.humans.len(), 1);
    assert_eq!(state.humans[0].id, 1);
    assert_eq!(state.score, -1000);
}

// Two equidistant humans: the zombie picks the one earlier in iteration
// order, deterministically.
#[test]
fn test_target_tiebreak() {
    let player = Human {
        id: -1,
        pos: Point { x: 0, y: 0 },
    };
    let a = Human {
        id: 10,
        pos: Point { x: 4000, y: 5000 },
    };
    let b = Human {
        id: 11,
        pos: Point { x: 6000, y: 5000 },
    };
    let mut z = Zombie {
        id: 0,
        pos: Point { x: 5000, y: 5000 },
        target: Point { x: 0, y: 0 },
    };
    z.choose_target(&vec![a, b], &player);
    assert_eq!(z.target, a.pos);
    let mut z2 = Zombie {
        id: 0,
        pos: Point { x: 5000, y: 5000 },
        target: Point { x: 0, y: 0 },
    };
    z2.choose_target(&vec![b, a], &player);
    assert_eq!(z2.target, b.pos);
}

// The search returns a legal on-field point for edge-case states too.
#[test]
fn test_search_legal_output() {
    let mut action_gen = ActionGen::new();
    let empty = State {
        player: Human {
            id: -1,
            pos: Point { x: 8000, y: 4500 },
        },
        humans: vec![],
        zombies: vec![],
        score: 0,
    };
    let out = find_solution(empty, &mut action_gen);
    assert!(0 <= out.x && out.x <= 16000);
    assert!(0 <= out.y && out.y <= 9000);

    let corner = State {
        player: Human {
            id: -1,
            pos: Point { x: 0, y: 0 },
        },
        humans: vec![],
        zombies: vec![Zombie {
            id: 0,
            pos: Point { x: 16000, y: 9000 },
            target: Point { x: 0, y: 0 },
        }],
        score: 0,
    };
    let out2 = find_solution(corner, &mut action_gen);
    assert!(0 <= out2.x && out2.x <= 16000);
    assert!(0 <= out2.y && out2.y <= 9000);
}

#[test]
fn test_snapshot_is_deep_copy() {
    let state = State {
        player: Human {
            id: -1,
            pos: Point { x: 1, y: 2 },
        },
        humans: vec![Human {
            id: 0,
            pos: Point { x: 3, y: 4 },
        }],
        zombies: vec![Zombie {
            id: 5,
            pos: Point { x: 6, y: 7 },
            target: Point { x: 8, y: 9 },
        }],
        score: 42,
    };
    let mut copy = state.snapshot();
    assert_eq!(copy.player, state.player);
    assert_eq!(copy.humans, state.humans);
    assert_eq!(copy.zombies, state.zombies);
    assert_eq!(copy.score, state.score);
    // Mutating the copy leaves the source state untouched.
    copy.humans.clear();
    copy.score = 0;
    assert_eq!(state.humans.len(), 1);
    assert_eq!(state.score, 42);
}

// A plan's rollout score, computed by hand: the first tick kills the lone
// zombie (score 1); the remaining seven directions change nothing.
#[test]
fn test_eval_plan_exact() {
    let state = State {
        player: Human {
            id: -1,
            pos: Point { x: 4000, y: 0 },
        },
        humans: vec![Human {
            id: 0,
            pos: Point { x: 0, y: 0 },
        }],
        zombies: vec![Zombie {
            id: 7,
            pos: Point { x: 5000, y: 0 },
            target: Point { x: 0, y: 0 },
        }],
        score: 0,
    };
    let plan = vec![Dir::Stay; 8];
    assert_eq!(eval_plan(&state, &plan, 1, 500), 1);
}

// A rollout that loses the last human stops early at the sentinel minimum.
#[test]
fn test_eval_plan_loss() {
    let state = State {
        player: Human {
            id: -1,
            pos: Point { x: 16000, y: 9000 },
        },
        humans: vec![Human {
            id: 0,
            pos: Point { x: 0, y: 0 },
        }],
        zombies: vec![Zombie {
            id: 0,
            pos: Point { x: 300, y: 0 },
            target: Point { x: 0, y: 0 },
        }],
        score: 0,
    };
    let plan = vec![Dir::Stay; 8];
    assert_eq!(eval_plan(&state, &plan, 1, 500), i64::MIN);
}
