use rps_swarm::{beats, predator_of, random_shape, Shape};

const ALL: [Shape; 3] = [Shape::Scissors, Shape::Paper, Shape::Rock];

#[test]
fn dominance_is_a_three_cycle() {
    assert!(beats(Shape::Scissors, Shape::Paper));
    assert!(beats(Shape::Paper, Shape::Rock));
    assert!(beats(Shape::Rock, Shape::Scissors));
    assert!(!beats(Shape::Paper, Shape::Scissors));
    assert!(!beats(Shape::Rock, Shape::Paper));
    assert!(!beats(Shape::Scissors, Shape::Rock));
}

#[test]
fn no_shape_beats_itself() {
    for s in ALL {
        assert!(!beats(s, s));
    }
}

#[test]
fn each_shape_has_one_predator() {
    for b in ALL {
        let hunters: Vec<Shape> = ALL.iter().copied().filter(|&a| beats(a, b)).collect();
        assert_eq!(hunters, vec![predator_of(b)]);
    }
    assert_eq!(predator_of(Shape::Paper), Shape::Scissors);
    assert_eq!(predator_of(Shape::Rock), Shape::Paper);
    assert_eq!(predator_of(Shape::Scissors), Shape::Rock);
}

#[test]
fn shapes_by_index() {
    assert_eq!(Shape::from_index(0), Shape::Scissors);
    assert_eq!(Shape::from_index(1), Shape::Paper);
    assert_eq!(Shape::from_index(2), Shape::Rock);
}

#[test]
fn random_shapes_cover_all_three() {
    let drawn: Vec<Shape> = (0..300).map(|_| random_shape()).collect();
    for s in ALL {
        assert!(drawn.contains(&s));
    }
}
