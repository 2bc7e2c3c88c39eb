use pathprobe::config::{sentinel_of, PATH_DOESNT_EXIST_MSG};
use pathprobe::sentinel::{BodyEvent, Reading, SentinelMatcher};

/// What a body that arrived whole in these pieces answers.
fn path_exists(chunks: &Vec<Vec<u8>>, sentinel: &Vec<u8>) -> bool {
    pathprobe::sentinel::path_exists(chunks, true, sentinel).unwrap()
}

fn chunks(pieces: &[&str]) -> Vec<Vec<u8>> {
    let mut out = Vec::new();
    for piece in pieces {
        out.push(piece.as_bytes().to_vec());
    }
    out
}

fn default_sentinel() -> Vec<u8> {
    sentinel_of(&PATH_DOESNT_EXIST_MSG)
}

#[test]
fn the_sentinel_spells_no_images_found() {
    assert_eq!(default_sentinel(), b"No images found.".to_vec());
    assert_eq!(sentinel_of(b"abc"), vec![97u8, 98, 99]);
    assert_eq!(sentinel_of(b""), Vec::<u8>::new());
}

#[test]
fn sentinel_in_one_chunk_means_not_found() {
    assert!(!path_exists(&chunks(&["No images found."]), &default_sentinel()));
    assert!(!path_exists(&chunks(&["<p>No images found.</p>"]), &default_sentinel()));
}

#[test]
fn sentinel_across_two_chunks_means_not_found() {
    assert!(!path_exists(&chunks(&["No ima", "ges found."]), &default_sentinel()));
    assert_eq!(
        path_exists(&chunks(&["No ima", "ges found."]), &default_sentinel()),
        path_exists(&chunks(&["No images found."]), &default_sentinel())
    );
}

#[test]
fn sentinel_byte_by_byte_means_not_found() {
    let body = b"xxNo images found.yy";
    let mut pieces = Vec::new();
    for byte in body {
        pieces.push(vec![*byte]);
    }
    assert!(!path_exists(&pieces, &default_sentinel()));
    let mut with_gaps = Vec::new();
    for byte in body {
        with_gaps.push(Vec::new());
        with_gaps.push(vec![*byte]);
    }
    assert!(!path_exists(&with_gaps, &default_sentinel()));
}

#[test]
fn a_broken_start_does_not_hide_the_sentinel() {
    assert!(!path_exists(&chunks(&["No im", "XYZ", "No images found."]), &default_sentinel()));
    assert!(!path_exists(&chunks(&["No imXYZNo images found."]), &default_sentinel()));
}

#[test]
fn a_broken_start_alone_means_found() {
    assert!(path_exists(&chunks(&["No im", "XYZ", "No images foun"]), &default_sentinel()));
    assert!(path_exists(&chunks(&["No images found"]), &default_sentinel()));
    assert!(path_exists(&chunks(&["o images found."]), &default_sentinel()));
}

#[test]
fn a_body_without_the_sentinel_means_found() {
    assert!(path_exists(&chunks(&["<img src=a.png>", "<img src=b.png>"]), &default_sentinel()));
    assert!(path_exists(&chunks(&[]), &default_sentinel()));
    assert!(path_exists(&chunks(&["", ""]), &default_sentinel()));
}

#[test]
fn a_start_of_the_sentinel_right_before_it_does_not_hide_it() {
    assert!(!path_exists(&chunks(&["NNo images found."]), &default_sentinel()));
    assert!(!path_exists(&chunks(&["No No images found."]), &default_sentinel()));
    assert!(!path_exists(&chunks(&["No images No images found."]), &default_sentinel()));
    assert!(!path_exists(&chunks(&["No images", " No", " images found."]), &default_sentinel()));
}

#[test]
fn a_sentinel_that_overlaps_itself_is_found() {
    assert!(!path_exists(&chunks(&["aaab"]), &b"aab".to_vec()));
    assert!(!path_exists(&chunks(&["a", "a", "a", "b"]), &b"aab".to_vec()));
    assert!(!path_exists(&chunks(&["abaabab"]), &b"abab".to_vec()));
    assert!(!path_exists(&chunks(&["abababc"]), &b"ababc".to_vec()));
    assert!(!path_exists(&chunks(&["aabaabaaa"]), &b"aabaaa".to_vec()));
    assert!(path_exists(&chunks(&["aabaabaab"]), &b"aabaaa".to_vec()));
    assert!(path_exists(&chunks(&["ababab"]), &b"ababc".to_vec()));
    assert!(path_exists(&chunks(&["aaaa"]), &b"aab".to_vec()));
}

#[test]
fn an_empty_sentinel_stands_in_every_body() {
    assert!(!path_exists(&chunks(&[]), &Vec::new()));
    assert!(!path_exists(&chunks(&["abc"]), &Vec::new()));
    let mut matcher = SentinelMatcher::new(Vec::new());
    assert!(matcher.is_found());
    assert!(matcher.feed(b"x"));
}

#[test]
fn a_one_byte_sentinel_is_found() {
    assert!(!path_exists(&chunks(&["abc"]), &b"c".to_vec()));
    assert!(path_exists(&chunks(&["abc"]), &b"d".to_vec()));
}

#[test]
fn the_matcher_answers_for_all_it_has_read() {
    let mut matcher = SentinelMatcher::new(default_sentinel());
    assert!(!matcher.is_found());
    assert!(!matcher.feed(b"No images "));
    assert!(!matcher.is_found());
    assert!(!matcher.feed(b""));
    assert!(matcher.feed(b"found. and more"));
    assert!(matcher.is_found());
    assert!(matcher.feed(b"whatever follows"));
    assert!(matcher.feed(b""));
    assert!(matcher.is_found());
}

#[test]
fn every_cut_of_a_body_gets_the_same_answer() {
    let bodies: [&[u8]; 4] =
        [b"..No images found...", b"No images found", b"NNNo imagesNo images found.", b""];
    for body in bodies {
        let whole = path_exists(&vec![body.to_vec()], &default_sentinel());
        for cut in 0..=body.len() {
            let pieces = vec![body[..cut].to_vec(), body[cut..].to_vec()];
            assert_eq!(path_exists(&pieces, &default_sentinel()), whole);
            for second in cut..=body.len() {
                let three =
                    vec![body[..cut].to_vec(), body[cut..second].to_vec(), body[second..].to_vec()];
                assert_eq!(path_exists(&three, &default_sentinel()), whole);
            }
        }
    }
}

#[test]
fn the_matcher_agrees_with_a_plain_search() {
    let alphabet = [b'a', b'b'];
    let patterns: [&[u8]; 5] = [b"ab", b"aba", b"abab", b"aabaa", b"bbb"];
    for length in 0..=9usize {
        for code in 0..(1usize << length) {
            let mut body = Vec::new();
            for bit in 0..length {
                body.push(alphabet[(code >> bit) & 1]);
            }
            for pattern in patterns {
                let expected = body.windows(pattern.len()).any(|window| window == pattern);
                let half = body.len() / 2;
                let pieces = vec![body[..half].to_vec(), body[half..].to_vec()];
                assert_eq!(path_exists(&pieces, &pattern.to_vec()), !expected);
            }
        }
    }
}

#[test]
fn reading_settles_the_answer_as_soon_as_it_can() {
    let mut matcher = SentinelMatcher::new(default_sentinel());
    assert_eq!(matcher.read(BodyEvent::Piece(b"<html>No ima")), Reading::More);
    assert_eq!(matcher.read(BodyEvent::Piece(b"")), Reading::More);
    assert_eq!(matcher.read(BodyEvent::Piece(b"ges found.</html>")), Reading::Answer(false));
    assert_eq!(matcher.read(BodyEvent::Piece(b"more")), Reading::Answer(false));
    assert_eq!(matcher.read(BodyEvent::Ended), Reading::Answer(false));
    let mut other = SentinelMatcher::new(default_sentinel());
    assert_eq!(other.read(BodyEvent::Piece(b"<img>")), Reading::More);
    assert_eq!(other.read(BodyEvent::Ended), Reading::Answer(true));
    assert_eq!(other.read(BodyEvent::Ended), Reading::Answer(true));
    let mut empty_body = SentinelMatcher::new(default_sentinel());
    assert_eq!(empty_body.read(BodyEvent::Ended), Reading::Answer(true));
    let mut no_sentinel = SentinelMatcher::new(Vec::new());
    assert_eq!(no_sentinel.read(BodyEvent::Ended), Reading::Answer(false));
}

#[test]
fn a_body_that_broke_off_is_never_taken_for_found() {
    let mut matcher = SentinelMatcher::new(default_sentinel());
    assert_eq!(matcher.read(BodyEvent::Piece(b"abc")), Reading::More);
    assert_eq!(matcher.read(BodyEvent::Failed), Reading::Again);
    assert!(!matcher.is_found());
    let mut at_once = SentinelMatcher::new(default_sentinel());
    assert_eq!(at_once.read(BodyEvent::Failed), Reading::Again);
    let mut partly = SentinelMatcher::new(default_sentinel());
    assert_eq!(partly.read(BodyEvent::Piece(b"No images fou")), Reading::More);
    assert_eq!(partly.read(BodyEvent::Failed), Reading::Again);
    let mut seen = SentinelMatcher::new(default_sentinel());
    assert_eq!(seen.read(BodyEvent::Piece(b"No images found.")), Reading::Answer(false));
    assert_eq!(seen.read(BodyEvent::Failed), Reading::Answer(false));
}

#[test]
fn a_broken_body_answers_nothing_unless_it_holds_the_sentinel() {
    let sentinel = default_sentinel();
    assert_eq!(pathprobe::sentinel::path_exists(&chunks(&["abc"]), false, &sentinel), None);
    assert_eq!(pathprobe::sentinel::path_exists(&chunks(&[]), false, &sentinel), None);
    assert_eq!(pathprobe::sentinel::path_exists(&chunks(&["No images", " fou"]), false, &sentinel), None);
    assert_eq!(
        pathprobe::sentinel::path_exists(&chunks(&["No images", " found."]), false, &sentinel),
        Some(false)
    );
    assert_eq!(pathprobe::sentinel::path_exists(&chunks(&["abc"]), true, &sentinel), Some(true));
    assert_eq!(
        pathprobe::sentinel::path_exists(&chunks(&["No images found."]), true, &sentinel),
        Some(false)
    );
    assert_eq!(pathprobe::sentinel::path_exists(&chunks(&[]), false, &Vec::new()), Some(false));
}
