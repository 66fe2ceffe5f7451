use mmdr::rng::{hand_drawn_seed, path_pieces_of, HandDrawnRng, PathPiece};

#[test]
fn xorshift_sequence() {
    let mut rng = HandDrawnRng::new(1);
    assert_eq!(rng.next_u32(), 270369);
    assert_eq!(rng.next_u32(), 67634689);
    let mut zero = HandDrawnRng::new(0);
    assert_eq!(zero.next_u32(), 270369);
}

#[test]
fn state_never_zero() {
    let mut rng = HandDrawnRng::new(0xdead_beef);
    for _ in 0..1000 {
        assert_ne!(rng.next_u32(), 0);
    }
}

#[test]
fn seed_from_shape_geometry() {
    assert_eq!(hand_drawn_seed(0, 0, 0, 0), 1268118805);
    let seed = hand_drawn_seed(
        10.0f32.to_bits(),
        20.0f32.to_bits(),
        100.0f32.to_bits(),
        40.0f32.to_bits(),
    );
    assert_eq!(seed, 389936405);
    assert_ne!(seed, hand_drawn_seed(20.0f32.to_bits(), 10.0f32.to_bits(), 100.0f32.to_bits(), 40.0f32.to_bits()));
}

fn num(s: &str) -> PathPiece {
    PathPiece::Number(s.to_string())
}

#[test]
fn path_data_splits_into_numbers_and_commands() {
    let pieces = path_pieces_of("M10,-2.5 L.5 3Z");
    assert_eq!(
        pieces,
        vec![
            PathPiece::Other('M'),
            num("10"),
            PathPiece::Other(','),
            num("-2.5"),
            PathPiece::Other(' '),
            PathPiece::Other('L'),
            num(".5"),
            PathPiece::Other(' '),
            num("3"),
            PathPiece::Other('Z'),
        ]
    );
    assert_eq!(path_pieces_of(""), vec![]);
    assert_eq!(path_pieces_of("--1"), vec![num("-"), num("-1")]);
    assert_eq!(path_pieces_of("1.2.3a"), vec![num("1.2.3"), PathPiece::Other('a')]);
}

#[test]
fn path_pieces_rejoin_to_the_input() {
    let d = "M 0 0 C 10.25 -3, 20 4.5, 30 0 A5 5 0 0 1 40,40 z";
    let rejoined: String = path_pieces_of(d)
        .iter()
        .map(|p| match p {
            PathPiece::Number(n) => n.clone(),
            PathPiece::Other(c) => c.to_string(),
        })
        .collect();
    assert_eq!(rejoined, d);
}
