use rubiks_trainer::ida::{ida_star, SearchProblem};

struct WalkProblem {
    target: i32,
}

impl SearchProblem for WalkProblem {
    type State = i32;
    type Move = i32;

    fn goal(&self, s: i32) -> bool {
        s == self.target
    }

    fn next(&self, s: i32, m: i32) -> i32 {
        s + m
    }

    fn estimate(&self, s: i32) -> u8 {
        ((self.target - s).unsigned_abs() / 5).min(u8::MAX as u32) as u8
    }

    fn is_goal(&self, state: &i32) -> bool {
        *state == self.target
    }

    fn heuristic(&self, state: &i32) -> u8 {
        ((self.target - state).unsigned_abs() / 5).min(u8::MAX as u32) as u8
    }

    fn legal(&self, _s: i32, m: i32) -> bool {
        m == 1 || m == -1 || m == 5 || m == -5
    }

    fn neighbors(&self, state: &i32) -> Vec<(i32, i32)> {
        let s = *state;
        [1, -1, 5, -5].into_iter().map(move |d| (d, s + d)).collect()
    }

    fn prune_redundant(&self, _last: Option<i32>, _next: i32) -> bool {
        false
    }
}

#[test]
fn walks_to_target() {
    let p = WalkProblem { target: 23 };
    let path = ida_star(&p, 0, 30).expect("must find a path");
    assert_eq!(path.iter().sum::<i32>(), 23);
    assert_eq!(path.len(), 7);
}

#[test]
fn already_at_goal() {
    let p = WalkProblem { target: 0 };
    let path = ida_star(&p, 0, 5).unwrap();
    assert!(path.is_empty());
}

#[test]
fn returns_none_when_depth_exceeded() {
    let p = WalkProblem { target: 1000 };
    assert!(ida_star(&p, 0, 5).is_none());
}

struct NoRepeat {
    target: i32,
}

impl SearchProblem for NoRepeat {
    type State = i32;
    type Move = i32;

    fn goal(&self, s: i32) -> bool {
        s == self.target
    }

    fn next(&self, s: i32, m: i32) -> i32 {
        s + m
    }

    fn estimate(&self, _s: i32) -> u8 {
        0
    }

    fn is_goal(&self, state: &i32) -> bool {
        *state == self.target
    }

    fn heuristic(&self, _state: &i32) -> u8 {
        0
    }

    fn legal(&self, _s: i32, m: i32) -> bool {
        m == 1 || m == 2
    }

    fn pruned(&self, last: Option<i32>, next: i32) -> bool {
        last == Some(next)
    }

    fn neighbors(&self, state: &i32) -> Vec<(i32, i32)> {
        vec![(1, state + 1), (2, state + 2)]
    }

    fn prune_redundant(&self, last: Option<i32>, next: i32) -> bool {
        last == Some(next)
    }
}

#[test]
fn pruned_moves_are_never_repeated() {
    let p = NoRepeat { target: 4 };
    let path = ida_star(&p, 0, 10).unwrap();
    assert_eq!(path.iter().sum::<i32>(), 4);
    assert!(path.windows(2).all(|w| w[0] != w[1]));
    assert_eq!(path.len(), 3);
}
