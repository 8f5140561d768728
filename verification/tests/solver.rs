use snakube::geometry::Position;
use snakube::search::search;
use snakube::state::AttemptParams;
use snakube::validate::{validate_input, InputError};

/// The direction vector of a move, recovered from its endpoints.
fn delta(from: Position, to: Position) -> (i32, i32, i32) {
    (
        to.x as i32 - from.x as i32,
        to.y as i32 - from.y as i32,
        to.z as i32 - from.z as i32,
    )
}

fn sgn(v: i32) -> i32 {
    if v > 0 {
        1
    } else if v < 0 {
        -1
    } else {
        0
    }
}

/// Checks every observable validity property of a returned solution for
/// the given queue (already in back-consumption order).
fn assert_valid_solution(solution: &[(char, u8, Position)], queue: &[u8], size: i32) {
    // move lengths in consumption order: the queue is consumed from the back
    let mut expected: Vec<u8> = queue.to_vec();
    expected.reverse();
    let got: Vec<u8> = solution.iter().map(|m| m.1).collect();
    assert_eq!(got, expected);

    // walk the path, collecting every covered cell
    let origin = Position { x: 0, y: 0, z: 0 };
    let mut cells: Vec<(i32, i32, i32)> = vec![(0, 0, 0)];
    let mut prev = origin;
    let mut prev_dir: Option<(i32, i32, i32)> = None;
    for &(abbrev, len, end) in solution {
        let d = delta(prev, end);
        let dir = (sgn(d.0), sgn(d.1), sgn(d.2));
        // a straight axis-aligned move of exactly `len` cells
        assert_eq!(dir.0.abs() + dir.1.abs() + dir.2.abs(), 1);
        assert_eq!(d, (dir.0 * len as i32, dir.1 * len as i32, dir.2 * len as i32));
        assert!(1 <= len && (len as i32) < size);
        // the label matches the direction
        let letter = match dir {
            (1, 0, 0) => 'R',
            (-1, 0, 0) => 'L',
            (0, 1, 0) => 'U',
            (0, -1, 0) => 'D',
            (0, 0, 1) => 'O',
            _ => 'I',
        };
        assert_eq!(abbrev, letter);
        // consecutive moves never share an axis
        if let Some(pd) = prev_dir {
            assert_eq!(pd.0 * dir.0 + pd.1 * dir.1 + pd.2 * dir.2, 0);
        }
        for k in 1..=len as i32 {
            let cell = (
                prev.x as i32 + dir.0 * k,
                prev.y as i32 + dir.1 * k,
                prev.z as i32 + dir.2 * k,
            );
            assert!(!cells.contains(&cell));
            cells.push(cell);
        }
        prev = end;
        prev_dir = Some(dir);
    }

    // origin plus all covered cells fill the cube exactly once
    assert_eq!(cells.len() as i32, size * size * size);

    // every cell lies in the reachable range and the bounding box is
    // narrower than the cube side on every axis
    for axis in 0..3 {
        let coords: Vec<i32> = cells
            .iter()
            .map(|c| match axis {
                0 => c.0,
                1 => c.1,
                _ => c.2,
            })
            .collect();
        let lo = *coords.iter().min().unwrap();
        let hi = *coords.iter().max().unwrap();
        assert!(-(size - 1) <= lo && hi <= size - 1);
        assert!(hi - lo < size);
    }
}

#[test]
fn size_two_all_ones_fills_the_cube() {
    let size: usize = 2;
    let input: Vec<u8> = vec![1, 1, 1, 1, 1, 1, 1];
    assert_eq!(validate_input(size, &input), Ok(()));

    let mut params = AttemptParams::new(&input, size);
    let res = search(&mut params, size, 1);
    let solution = res.expect("a 2-cube all-ones chain folds");
    assert_eq!(solution.len(), 7);
    assert_valid_solution(&solution, &input, size as i32);

    // the eight covered cells are exactly the unit cells of one 2x2x2 cube
    let mut cells = vec![Position { x: 0, y: 0, z: 0 }];
    for &(_, _, p) in &solution {
        cells.push(p);
    }
    for x in 0..2i8 {
        for y in 0..2i8 {
            for z in 0..2i8 {
                assert!(cells.contains(&Position { x, y, z }));
            }
        }
    }
}

#[test]
fn size_two_first_solution_in_table_order() {
    // the fixed direction order UP, DOWN, RIGHT, LEFT, OUT, IN makes the
    // first solution for the all-ones 2-cube fully predictable
    let size: usize = 2;
    let input: Vec<u8> = vec![1, 1, 1, 1, 1, 1, 1];
    let mut params = AttemptParams::new(&input, size);
    let solution = search(&mut params, size, 1).expect("a 2-cube all-ones chain folds");
    let letters: Vec<char> = solution.iter().map(|m| m.0).collect();
    assert_eq!(letters, vec!['U', 'R', 'D', 'O', 'U', 'L', 'D']);
    let expected_ends = [
        Position { x: 0, y: 1, z: 0 },
        Position { x: 1, y: 1, z: 0 },
        Position { x: 1, y: 0, z: 0 },
        Position { x: 1, y: 0, z: 1 },
        Position { x: 1, y: 1, z: 1 },
        Position { x: 0, y: 1, z: 1 },
        Position { x: 0, y: 0, z: 1 },
    ];
    for (got, want) in solution.iter().zip(expected_ends.iter()) {
        assert_eq!(got.1, 1);
        assert_eq!(got.2, *want);
    }
}

#[test]
fn infeasible_sum_is_rejected() {
    // 1 + 1 + 1 = 3, but a 3-cube holds 27 cells
    let res = validate_input(3, &[1, 1]);
    assert_eq!(res, Err(InputError::SumMismatch { expected: 27, got: 3 }));
}

#[test]
fn oversized_segment_is_rejected() {
    // the sum is right, but a segment of length 3 cannot fit a 3-cube
    let input: Vec<u8> = vec![3, 3, 2, 2, 2, 2, 2, 2, 2, 2, 2, 2];
    assert_eq!(input.iter().map(|&e| e as u32).sum::<u32>(), 26);
    let res = validate_input(3, &input);
    assert_eq!(res, Err(InputError::ElementTooLarge { element: 3 }));
}

#[test]
fn exhaustible_no_solution_case() {
    // thirteen straight-2 segments sum to 26, but every segment endpoint
    // would have to land on one of the 8 corner-parity cells of the cube,
    // and a path of 13 moves visits 14 distinct endpoints: no fold exists
    let size: usize = 3;
    let input: Vec<u8> = vec![2; 13];
    assert_eq!(validate_input(size, &input), Ok(()));

    let mut params = AttemptParams::new(&input, size);
    let res = search(&mut params, size, 1);
    assert!(res.is_none());
}

#[test]
fn search_is_deterministic() {
    let size: usize = 2;
    let input: Vec<u8> = vec![1, 1, 1, 1, 1, 1, 1];
    let mut first = AttemptParams::new(&input, size);
    let mut second = AttemptParams::new(&input, size);
    let a = search(&mut first, size, 1);
    let b = search(&mut second, size, 1);
    assert_eq!(a, b);

    let unsolvable: Vec<u8> = vec![2; 13];
    let mut third = AttemptParams::new(&unsolvable, 3);
    let mut fourth = AttemptParams::new(&unsolvable, 3);
    assert_eq!(search(&mut third, 3, 1), search(&mut fourth, 3, 1));
}

#[test]
fn fresh_params_start_at_the_origin() {
    let input: Vec<u8> = vec![1, 1, 1];
    let params = AttemptParams::new(&input, 4);
    assert_eq!(params.input_queue, input);
    assert_eq!(params.position, Position { x: 0, y: 0, z: 0 });
    assert!(params.direction.is_none());
    assert!(params.solution.is_empty());
    for idx in 0..6 {
        assert_eq!(params.bounds.get_by_index(idx), 0);
    }
}

#[test]
fn validate_accepts_a_solvable_input() {
    assert_eq!(validate_input(2, &[1, 1, 1, 1, 1, 1, 1]), Ok(()));
}
