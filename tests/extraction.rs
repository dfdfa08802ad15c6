use regex::Regex;
use rs_versions::{extract_text, find_version, find_version_bytes};

fn grammar_as_regex() -> Regex {
    Regex::new(
        r"(?x)
        (?P<major>0|[1-9]\d*)
        (\.
        (?P<minor>0|[1-9]\d*)
        (\.
            (?P<patch>0|[1-9]\d*)
        )?
        (?:[-\.](?P<prerelease>
            (?:0|[1-9]\d*|\d*[a-zA-Z-][0-9a-zA-Z-]*)
            (?:\.(?:0|[1-9]\d*|\d*[a-zA-Z-][0-9a-zA-Z-]*))*
        ))?
        (?:-\+(?P<build>
            [0-9a-zA-Z-]+
            (?:\.[0-9a-zA-Z-]+)*
        ))?
        )?
        ",
    )
    .unwrap()
}

#[test]
fn extraction_agrees_with_regex_on_samples() {
    let re = grammar_as_regex();
    let samples = [
        "",
        "abc",
        "5",
        "0123",
        "1.2",
        "1.2.3",
        "1.2.3.4",
        "1.2.x",
        "1.x",
        "1-alpha",
        "1.2-alpha-+build",
        "1.2.3-alpha+build.1",
        "1.2.3-0abc",
        "1.2.3-12abc.rc",
        "1.2.3-rc.1.2-beta",
        "1.2.3-+b.c.d",
        "1.2.3-+",
        "1.2.3-+.",
        "1.2.3.-",
        "v10.04.2-lts",
        "resin-1.2.3-alpha+build.1.2.3-beta",
        "2020.1.2-alpha",
        "20220202-alpha",
        "img:0.0.0-x.y.-z",
        "é1.2é",
        "a.b.1..2",
    ];
    for s in samples.iter() {
        let expected = re.find(s).map(|m| (m.start(), m.end()));
        assert_eq!(find_version(s), expected, "label {:?}", s);
    }
}

#[test]
fn extraction_agrees_with_regex_on_generated_labels() {
    let re = grammar_as_regex();
    let alphabet = ['0', '1', '9', '.', '-', '+', 'a', 'Z', '_'];
    let mut seed: u64 = 0x2545F4914F6CDD1D;
    for _ in 0..20000 {
        let mut label = String::new();
        seed ^= seed << 13;
        seed ^= seed >> 7;
        seed ^= seed << 17;
        let len = (seed % 12) as usize;
        let mut x = seed;
        for _ in 0..len {
            label.push(alphabet[(x % alphabet.len() as u64) as usize]);
            x /= alphabet.len() as u64;
            if x == 0 {
                x = seed.rotate_left(29) | 1;
            }
        }
        let expected = re.find(&label).map(|m| (m.start(), m.end()));
        assert_eq!(find_version(&label), expected, "label {:?}", label);
    }
}

#[test]
fn bare_major_is_a_match() {
    assert_eq!(find_version("5"), Some((0, 1)));
    assert_eq!(extract_text("release 5 final"), Some("5"));
}

#[test]
fn no_digit_no_match() {
    assert_eq!(find_version(""), None);
    assert_eq!(find_version("not-a-version"), None);
    assert_eq!(find_version_bytes(b"abc.def"), None);
}

#[test]
fn leading_zero_stops_the_number() {
    assert_eq!(extract_text("0123"), Some("0"));
    assert_eq!(extract_text("1.02.3"), Some("1.0"));
}

#[test]
fn prefix_and_build_are_left_out() {
    assert_eq!(extract_text("resin-1.2.3"), Some("1.2.3"));
    assert_eq!(extract_text("1.2.3-alpha+build.1"), Some("1.2.3-alpha"));
    assert_eq!(extract_text("1.2.3-+build.7 tail"), Some("1.2.3-+build.7"));
}

#[test]
fn plain_numbers_are_extracted_whole() {
    assert_eq!(extract_text("20220202"), Some("20220202"));
    assert_eq!(extract_text("5.2"), Some("5.2"));
    assert_eq!(extract_text("10.20.30"), Some("10.20.30"));
    assert_eq!(find_version("0.0.0"), Some((0, 5)));
}

#[test]
fn prefix_without_digits_only_moves_the_span() {
    assert_eq!(find_version("1.2.3-rc.1"), Some((0, 10)));
    assert_eq!(find_version("app-v1.2.3-rc.1"), Some((5, 15)));
    assert_eq!(extract_text("app-v1.2.3-rc.1"), extract_text("1.2.3-rc.1"));
}
