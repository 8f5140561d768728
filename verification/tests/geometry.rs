use snakube::geometry::{Direction, Position};

#[test]
fn dotproduct() {
    let up = Direction { x: 0, y: 1, z: 0 };
    let down = Direction { x: 0, y: -1, z: 0 };
    let dprod = up.dot(down);
    assert_eq!(dprod, -1);

    let right = Direction { x: 1, y: 0, z: 0 };
    assert_eq!(up.dot(right), 0);
}

#[test]
fn direction_inverse() {
    let up = Direction { x: 0, y: 1, z: 0 };
    let down = Direction { x: 0, y: -1, z: 0 };
    let inv = up.scale(-1);
    assert_eq!(down, inv);
}

#[test]
fn dot_identity() {
    let out = Direction { x: 0, y: 0, z: 1 };
    assert_eq!(out.dot(out), 1);
}

#[test]
fn scale_stretches_components() {
    let left = Direction { x: -1, y: 0, z: 0 };
    let offset = left.scale(3);
    assert_eq!(offset, Direction { x: -3, y: 0, z: 0 });
}

#[test]
fn sign_of_each_direction() {
    assert_eq!(Direction { x: 0, y: 1, z: 0 }.sign(), 1);
    assert_eq!(Direction { x: 0, y: -1, z: 0 }.sign(), -1);
    assert_eq!(Direction { x: 1, y: 0, z: 0 }.sign(), 1);
    assert_eq!(Direction { x: -1, y: 0, z: 0 }.sign(), -1);
    assert_eq!(Direction { x: 0, y: 0, z: 1 }.sign(), 1);
    assert_eq!(Direction { x: 0, y: 0, z: -1 }.sign(), -1);
}

#[test]
fn abbreviation_of_each_direction() {
    assert_eq!(Direction { x: 0, y: 1, z: 0 }.abbreviation(), 'U');
    assert_eq!(Direction { x: 0, y: -1, z: 0 }.abbreviation(), 'D');
    assert_eq!(Direction { x: 1, y: 0, z: 0 }.abbreviation(), 'R');
    assert_eq!(Direction { x: -1, y: 0, z: 0 }.abbreviation(), 'L');
    assert_eq!(Direction { x: 0, y: 0, z: 1 }.abbreviation(), 'O');
    assert_eq!(Direction { x: 0, y: 0, z: -1 }.abbreviation(), 'I');
}

#[test]
fn position_add_direction() {
    let p = Position { x: 1, y: -2, z: 3 };
    let d = Direction { x: 0, y: 2, z: -1 };
    let q = p.add(d);
    assert_eq!(q, Position { x: 1, y: 0, z: 2 });
}

#[test]
fn coord_by_named_direction() {
    let p = Position { x: 5, y: -7, z: 2 };
    assert_eq!(p.coord_by_dir("UP"), -7);
    assert_eq!(p.coord_by_dir("DOWN"), -7);
    assert_eq!(p.coord_by_dir("RIGHT"), 5);
    assert_eq!(p.coord_by_dir("LEFT"), 5);
    assert_eq!(p.coord_by_dir("OUT"), 2);
    assert_eq!(p.coord_by_dir("IN"), 2);
}
