use yahtzee::YahtzeeError;
use yahtzee::ranking::{
    format_highscore, get_highscores, insert_highscore, insert_position, parse_highscore_line,
    write_highscores, Highscore,
};

fn entry(name: &str, score: i32) -> Highscore {
    Highscore { name: name.as_bytes().to_vec(), score }
}

#[test]
fn parses_well_formed_record() {
    let h = parse_highscore_line(b"alice: 100").unwrap();
    assert_eq!(h.name, b"alice".to_vec());
    assert_eq!(h.score, 100);
}

#[test]
fn name_is_kept_untrimmed() {
    let h = parse_highscore_line(b"  spaced name :\t42 ").unwrap();
    assert_eq!(h.name, b"  spaced name ".to_vec());
    assert_eq!(h.score, 42);
}

#[test]
fn parses_signed_scores() {
    assert_eq!(parse_highscore_line(b"bob:-5").unwrap().score, -5);
    assert_eq!(parse_highscore_line(b"bob:+7").unwrap().score, 7);
    assert_eq!(parse_highscore_line(b"edge: -2147483648").unwrap().score, i32::MIN);
    assert_eq!(parse_highscore_line(b"edge: 2147483647").unwrap().score, i32::MAX);
}

#[test]
fn malformed_records_yield_nothing() {
    assert_eq!(
        parse_highscore_line(b"no colon here").unwrap_err(),
        YahtzeeError::MalformedRecord
    );
    assert!(parse_highscore_line(b"a:b:5").is_err());
    assert!(parse_highscore_line(b"x: 12junk").is_err());
    assert!(parse_highscore_line(b"x:").is_err());
    assert!(parse_highscore_line(b"x: -").is_err());
    assert!(parse_highscore_line(b"").is_err());
    // Out of range for an i32, in both directions.
    assert!(parse_highscore_line(b"x: 2147483648").is_err());
    assert!(parse_highscore_line(b"x: -2147483649").is_err());
    assert!(parse_highscore_line(b"x: 99999999999999999999").is_err());
}

#[test]
fn load_skips_malformed_lines() {
    let data = b"alice: 100\ngarbage line\nbob: 50\n\ncarol: notanumber\ndave: -3\n";
    let loaded = get_highscores(data);
    assert_eq!(loaded.len(), 3);
    assert_eq!(loaded[0].name, b"alice".to_vec());
    assert_eq!(loaded[0].score, 100);
    assert_eq!(loaded[1].name, b"bob".to_vec());
    assert_eq!(loaded[1].score, 50);
    assert_eq!(loaded[2].name, b"dave".to_vec());
    assert_eq!(loaded[2].score, -3);
}

#[test]
fn load_of_nothing_is_empty() {
    assert!(get_highscores(b"").is_empty());
}

#[test]
fn load_takes_a_final_unterminated_line() {
    let loaded = get_highscores(b"alice: 1\nbob: 2");
    assert_eq!(loaded.len(), 2);
    assert_eq!(loaded[1].name, b"bob".to_vec());
    assert_eq!(loaded[1].score, 2);
}

#[test]
fn formats_one_record_per_line() {
    assert_eq!(format_highscore(&entry("alice", 100)), b"alice: 100".to_vec());
    assert_eq!(format_highscore(&entry("bob", -5)), b"bob: -5".to_vec());
    assert_eq!(format_highscore(&entry("zero", 0)), b"zero: 0".to_vec());
    let hs = vec![entry("alice", 100), entry("bob", -5)];
    assert_eq!(write_highscores(&hs), b"alice: 100\nbob: -5\n".to_vec());
}

#[test]
fn persist_then_load_reproduces_entries() {
    let hs = vec![
        entry("alice", 100),
        entry("a name with spaces", 0),
        entry("bob", -2147483648),
        entry("carol", 2147483647),
    ];
    let bytes = write_highscores(&hs);
    let back = get_highscores(&bytes);
    assert_eq!(back.len(), hs.len());
    for (orig, reread) in hs.iter().zip(back.iter()) {
        assert_eq!(orig.name, reread.name);
        assert_eq!(orig.score, reread.score);
    }
}

#[test]
fn insertion_keeps_descending_order() {
    let mut hs = Vec::new();
    for score in [10, 50, 30, 50, 20, 60, 10] {
        insert_highscore(&mut hs, entry("p", score));
        for w in hs.windows(2) {
            assert!(w[0].score >= w[1].score);
        }
    }
    let scores: Vec<i32> = hs.iter().map(|h| h.score).collect();
    assert_eq!(scores, vec![60, 50, 50, 30, 20, 10, 10]);
}

#[test]
fn equal_scores_insert_after_existing_ones() {
    let mut hs = vec![entry("first", 30), entry("second", 20), entry("third", 20), entry("fourth", 10)];
    assert_eq!(insert_position(&hs, 20), 3);
    let p = insert_highscore(&mut hs, entry("new", 20));
    assert_eq!(p, 3);
    assert_eq!(hs[3].name, b"new".to_vec());
    assert_eq!(insert_position(&hs, 100), 0);
    assert_eq!(insert_position(&hs, -1), hs.len());
}
