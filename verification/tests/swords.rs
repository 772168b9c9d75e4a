use state_search::puzzles::dancers::appended;
use state_search::puzzles::swords::{
    fishbone, forge, parse_sword, place, read_sword, segment_value, Segment, Sword,
};

fn bytes(text: &str) -> Vec<u8> {
    text.as_bytes().to_vec()
}

fn seg(center: u64, left: Option<u64>, right: Option<u64>) -> Segment {
    Segment { center, left, right }
}

#[test]
fn fishbone_of_the_first_sword() {
    let spine = fishbone(&vec![5, 3, 7, 8, 9, 10, 4, 5, 7, 8, 8]);
    assert_eq!(
        spine,
        vec![
            seg(5, Some(3), Some(7)),
            seg(8, Some(4), Some(9)),
            seg(10, Some(5), None),
            seg(7, None, Some(8)),
            seg(8, None, None),
        ]
    );
}

#[test]
fn number_goes_to_the_first_segment_with_room() {
    let mut spine = vec![seg(5, Some(3), None), seg(8, None, None)];
    place(&mut spine, 4);
    assert_eq!(spine, vec![seg(5, Some(3), None), seg(8, Some(4), None)]);
    place(&mut spine, 9);
    assert_eq!(spine, vec![seg(5, Some(3), Some(9)), seg(8, Some(4), None)]);
    place(&mut spine, 5);
    assert_eq!(spine, vec![seg(5, Some(3), Some(9)), seg(8, Some(4), None), seg(5, None, None)]);
}

#[test]
fn number_equal_to_every_center_lengthens_the_spine() {
    assert_eq!(fishbone(&vec![1, 1, 1]), vec![seg(1, None, None); 3]);
    assert_eq!(fishbone(&Vec::new()), Vec::new());
}

#[test]
fn sword_of_the_first_line() {
    let sword = parse_sword(&bytes("58:5,3,7,8,9,10,4,5,7,8,8")).unwrap();
    assert_eq!(sword, Sword { quality: 581078, segments: vec![357, 489, 510, 78, 8], id: 58 });
}

#[test]
fn swords_of_more_lines() {
    assert_eq!(
        parse_sword(&bytes("1:2,4,1,1,8,2,7,9,8,6")),
        Some(Sword { quality: 21296, segments: vec![124, 18, 27, 89, 6], id: 1 })
    );
    assert_eq!(
        parse_sword(&bytes("2:7,9,9,3,8,3,8,8,6,8")),
        Some(Sword { quality: 79388, segments: vec![379, 89, 38, 68, 8], id: 2 })
    );
    assert_eq!(
        parse_sword(&bytes("3:4,7,6,9,1,8,3,7,2,2")),
        Some(Sword { quality: 46822, segments: vec![147, 369, 78, 2, 2], id: 3 })
    );
}

#[test]
fn zeros_write_their_digit() {
    assert_eq!(
        parse_sword(&bytes("9:10,0,20,0,5")),
        Some(Sword { quality: 100, segments: vec![1020, 5], id: 9 })
    );
    assert_eq!(parse_sword(&bytes("4:0")), Some(Sword { quality: 0, segments: vec![0], id: 4 }));
}

#[test]
fn line_of_another_form_is_no_sword() {
    assert_eq!(parse_sword(&bytes("")), None);
    assert_eq!(parse_sword(&bytes("5")), None);
    assert_eq!(parse_sword(&bytes("5:")), None);
    assert_eq!(parse_sword(&bytes(":1,2")), None);
    assert_eq!(parse_sword(&bytes("5:1,,2")), None);
    assert_eq!(parse_sword(&bytes("5:1,2,")), None);
    assert_eq!(parse_sword(&bytes("5:1:2")), None);
    assert_eq!(parse_sword(&bytes("5:1, 2")), None);
    assert_eq!(parse_sword(&bytes("x:1,2")), None);
    assert_eq!(parse_sword(&bytes("5:1,-2")), None);
}

#[test]
fn sword_whose_quality_does_not_fit_is_refused() {
    let numbers: Vec<u64> = vec![9; 21];
    assert_eq!(forge(1, &numbers), None);
    assert_eq!(parse_sword(&bytes("1:12345678901,12345678901")), None);
    assert_eq!(
        forge(1, &vec![1234567890, 1234567890]),
        Some(Sword { quality: 12345678901234567890, segments: vec![1234567890, 1234567890], id: 1 })
    );
}

#[test]
fn sword_with_a_segment_that_does_not_fit_is_refused() {
    assert_eq!(forge(1, &vec![5000000000, 4000000000, 6000000000]), None);
    assert_eq!(forge(1, &vec![5000000, 4000000, 6000000]), None);
    assert_eq!(
        forge(1, &vec![500000, 400000, 600000]),
        Some(Sword { quality: 500000, segments: vec![400000500000600000], id: 1 })
    );
}

#[test]
fn read_sword_gives_the_identifier_and_the_numbers() {
    assert_eq!(read_sword(&bytes("58:5,3,7")), Some((58, vec![5, 3, 7])));
    assert_eq!(read_sword(&bytes("0:+4")), Some((0, vec![4])));
    assert_eq!(read_sword(&bytes("58;5,3,7")), None);
}

#[test]
fn segment_writes_left_center_and_right() {
    assert_eq!(segment_value(seg(5, Some(3), Some(7))), Some(357));
    assert_eq!(segment_value(seg(10, None, Some(12))), Some(1012));
    assert_eq!(segment_value(seg(10, Some(0), None)), Some(10));
    assert_eq!(segment_value(seg(42, None, None)), Some(42));
    assert_eq!(segment_value(seg(u64::MAX, None, None)), Some(u64::MAX));
    assert_eq!(segment_value(seg(u64::MAX, None, Some(u64::MAX))), None);
    assert_eq!(segment_value(seg(u64::MAX, Some(1), None)), None);
}

#[test]
fn appended_writes_one_number_behind_another() {
    assert_eq!(appended(12, 345), Some(12345));
    assert_eq!(appended(12, 0), Some(120));
    assert_eq!(appended(0, 0), Some(0));
    assert_eq!(appended(0, u64::MAX), Some(u64::MAX));
    assert_eq!(appended(1844674407370955161, 5), Some(u64::MAX));
    assert_eq!(appended(1844674407370955161, 6), None);
    assert_eq!(appended(1, u64::MAX), None);
    assert_eq!(appended(1, 10000000000000000000), None);
}
