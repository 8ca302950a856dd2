use iscc_nbs::hue::{letter_code, parse_hue_notation, HueNotation, SECTOR_COUNT};
use regex::Regex;

fn read(text: &str) -> Option<(usize, usize)> {
    parse_hue_notation(text).map(|n| (n.number_len, n.sector))
}

/// The hue on the 0..100 scale that a notation stands for.
fn point(text: &str) -> f32 {
    let n = parse_hue_notation(text).unwrap();
    let number: f32 = text[..n.number_len].parse().unwrap();
    (((n.sector * 10) as f32) + (number - 5.0) + 100.0) % 100.0
}

/// The notation of a hue on the 0..100 scale, with two decimals.
fn notation(hue: f32) -> String {
    let hp = (hue + 5.0) % 100.0;
    let hn = hp % 10.0;
    let index = ((hp - hn) / 10.0) as usize;
    format!("{:1.2}{}", hn, letter_code(index))
}

#[test]
fn sector_centres_are_read() {
    assert_eq!(read("5R"), Some((1, 0)));
    assert_eq!(read("5Y"), Some((1, 2)));
    assert_eq!(read("5.5Y"), Some((3, 2)));
    assert_eq!(parse_hue_notation("7.5YR"), Some(HueNotation { number_len: 3, sector: 1 }));
}

#[test]
fn hue_from_string() {
    assert_eq!(point("5R"), 0.0);
    assert_eq!(point("5Y"), 20.0);
    assert_eq!(point("5.5Y"), 20.5);
}

#[test]
fn hue_points_wrap_round_the_circle() {
    assert_eq!(point("10RP"), 95.0);
    assert_eq!(point("2.5R"), 97.5);
    assert_eq!(point("5RP"), 90.0);
    assert_eq!(notation(90.0), "5.00RP");
    assert_eq!(notation(97.5), "2.50R");
}

#[test]
fn hue_display() {
    assert_eq!(notation(0.0), "5.00R");
    assert_eq!(notation(20.0), "5.00Y");
    assert_eq!(notation(20.5), "5.50Y");
}

#[test]
fn written_sector_centres_read_back() {
    for sector in 0..SECTOR_COUNT {
        let text = format!("5{}", letter_code(sector));
        assert_eq!(read(&text), Some((1, sector)));
        assert_eq!(notation(point(&text)), format!("5.00{}", letter_code(sector)));
    }
}

#[test]
fn every_code_is_read_as_its_own_sector() {
    let codes = ["R", "YR", "Y", "GY", "G", "BG", "B", "PB", "P", "RP"];
    for (sector, code) in codes.iter().enumerate() {
        assert_eq!(letter_code(sector), *code);
        for number in ["1", "10", "2.5", ".5", "007.25"] {
            let text = format!("{}{}", number, code);
            assert_eq!(read(&text), Some((number.len(), sector)));
        }
    }
}

#[test]
fn the_longer_code_wins() {
    assert_eq!(read("5RP"), Some((1, 9)));
    assert_eq!(read("5RX"), Some((1, 0)));
    assert_eq!(read("5YR"), Some((1, 1)));
    assert_eq!(read("5YG"), Some((1, 2)));
    assert_eq!(read("5PB"), Some((1, 7)));
    assert_eq!(read("5PR"), Some((1, 8)));
}

#[test]
fn what_follows_the_code_is_not_looked_at() {
    assert_eq!(read("5R and more"), Some((1, 0)));
    assert_eq!(read("2.5BG5"), Some((3, 5)));
    assert_eq!(read("5RPB"), Some((1, 9)));
}

#[test]
fn malformed_notations_are_refused() {
    for text in [
        "", "R", "5", "5.", "5.R", ".", ".R", "5..5R", "1.5.2R", "5 R", " 5R", "-5R", "+5R", "5r",
        "5X", "5e1R", "R5", "5,5R", "\u{663}R", "5\u{663}R", "\u{ff15}R",
    ] {
        assert_eq!(parse_hue_notation(text), None, "{:?}", text);
    }
}

#[test]
fn numbers_may_lack_digits_before_the_point() {
    assert_eq!(read(".5R"), Some((2, 0)));
    assert_eq!(read("0.25GY"), Some((4, 3)));
    assert_eq!(read("12345678901234567890B"), Some((20, 6)));
}

/// The grammar as a pattern: a number, then a code, the longer code first where one begins
/// with another.
#[test]
fn agrees_with_the_pattern() {
    let pattern = Regex::new(r"^([0-9]*\.?[0-9]+)(RP|R|YR|Y|GY|G|BG|B|PB|P)").unwrap();
    let atoms = ["", "5", "0", "12", ".", "R", "Y", "G", "B", "P", "X", " ", "-"];
    let codes = ["R", "YR", "Y", "GY", "G", "BG", "B", "PB", "P", "RP"];
    let mut checked = 0;
    for a in atoms {
        for b in atoms {
            for c in atoms {
                for d in atoms {
                    let text = format!("{}{}{}{}", a, b, c, d);
                    let expected = pattern.captures(&text).map(|caps| {
                        let number = caps.get(1).unwrap();
                        let code = caps.get(2).unwrap().as_str();
                        (number.end(), codes.iter().position(|x| *x == code).unwrap())
                    });
                    assert_eq!(read(&text), expected, "{:?}", text);
                    checked += 1;
                }
            }
        }
    }
    assert_eq!(checked, 13 * 13 * 13 * 13);
}
