use state_search::puzzles::balloons::{bolt_of, play, process_circle};

const LINE: &str = "BBRGGRRGBBRGGBRGBBRRBRRRBGGRRRBGBGG";

#[test]
fn bolts_come_red_green_and_blue_in_turn() {
    let colours: Vec<u8> = (0..7).map(bolt_of).collect();
    assert_eq!(colours, b"RGBRGBR".to_vec());
}

#[test]
fn small_circle_takes_fourteen_rounds() {
    assert_eq!(process_circle(&b"GGBR".to_vec(), 5), 14);
}

#[test]
fn long_circles() {
    let line = LINE.as_bytes().to_vec();
    assert_eq!(process_circle(&line, 10), 304);
    assert_eq!(process_circle(&line, 50), 1464);
    assert_eq!(process_circle(&line, 100), 2955);
    assert_eq!(process_circle(&line, 1000), 29477);
}

#[test]
fn smallest_circles() {
    assert_eq!(process_circle(&b"RG".to_vec(), 1), 1);
    assert_eq!(process_circle(&b"R".to_vec(), 2), 1);
    assert_eq!(process_circle(&b"RGB".to_vec(), 1), 1);
    assert_eq!(process_circle(&b"GBR".to_vec(), 3), 9);
}

#[test]
fn play_takes_the_two_halves() {
    assert_eq!(play(b"GGBRGGBRGG".to_vec(), &b"BRGGBRGGBR".to_vec()), 14);
    assert_eq!(play(b"R".to_vec(), &Vec::new()), 1);
    assert_eq!(play(b"G".to_vec(), &Vec::new()), 1);
    assert_eq!(play(b"G".to_vec(), &b"R".to_vec()), 2);
    assert_eq!(play(b"RR".to_vec(), &b"GG".to_vec()), 3);
}
