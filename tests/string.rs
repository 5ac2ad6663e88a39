use retain_more::encoding::{shift_back, utf8_width};
use retain_more::{RetainMoreString, SafeImpl};

fn redact(current: char, rest: &str) -> bool {
    match (current, rest.chars().next()) {
        ('-', Some(c)) => !c.is_ascii_digit(),
        (c, _) => !c.is_ascii_digit(),
    }
}

fn after_helper<F: FnMut(char, &str) -> bool>(input: &str, output: &str, f: F) {
    let mut input = input.to_string();
    input.retain_after(f);

    assert_eq!(&input[..], output);
}

#[test]
fn retain_after() {
    after_helper("this has no numbers", "this has no numbers", redact);
    after_helper("54321", "", redact);
    after_helper("-12345", "", redact);
    after_helper("--12345", "-", redact);
    after_helper("-12-3-45--", "--", redact);
}

#[test]
fn string_retain_default() {
    let mut s = String::from("α_β_γ");

    s.retain_default(|_| true);
    assert_eq!(s, "α_β_γ");

    s.retain_default(|c| c != '_');
    assert_eq!(s, "αβγ");

    s.retain_default(|c| c != 'β');
    assert_eq!(s, "αγ");

    s.retain_default(|c| c == 'α');
    assert_eq!(s, "α");

    s.retain_default(|_| false);
    assert_eq!(s, "");
}

#[test]
fn retain_default_underscores() {
    let mut s = String::from("f_o_ob_ar");
    s.retain_default(|c| c != '_');
    assert_eq!(s, "foobar");
}

#[test]
fn retain_default_keep_mask_in_order() {
    let mut s = String::from("abcde");
    let keep = [false, true, true, false, true];
    let mut i = 0;
    s.retain_default(|_| {
        let r = keep[i];
        i += 1;
        r
    });
    assert_eq!(s, "bce");
    assert_eq!(i, 5);
}

#[test]
fn retain_all_keep_everything_is_identity() {
    let mut s = String::from("a૱b-12 é");
    s.retain_all(|_, _, _| true);
    assert_eq!(s, "a૱b-12 é");
}

#[test]
fn retain_all_drop_everything_is_empty() {
    let mut s = String::from("a૱b-12 é");
    s.retain_all(|_, _, _| false);
    assert_eq!(s, "");
    assert!(s.is_empty());
}

#[test]
fn retain_all_on_empty_text() {
    let mut s = String::new();
    let mut calls = 0;
    s.retain_all(|_, _, _| {
        calls += 1;
        true
    });
    assert_eq!(s, "");
    assert_eq!(calls, 0);
}

#[test]
fn retain_all_offers_each_char_once_in_order() {
    let mut s = String::from("h૱é!");
    let mut seen = Vec::new();
    s.retain_all(|_, c, _| {
        seen.push(c);
        c != 'é'
    });
    assert_eq!(seen, vec!['h', '૱', 'é', '!']);
    assert_eq!(s, "h૱!");
}

#[test]
fn retain_all_views_show_retained_and_untouched() {
    let mut s = String::from("a_bé_c");
    let mut views = Vec::new();
    s.retain_all(|before, c, after| {
        views.push((before.to_string(), c, after.to_string()));
        c != '_'
    });
    assert_eq!(s, "abéc");
    let expected = vec![
        ("".to_string(), 'a', "_bé_c".to_string()),
        ("a".to_string(), '_', "bé_c".to_string()),
        ("a".to_string(), 'b', "é_c".to_string()),
        ("ab".to_string(), 'é', "_c".to_string()),
        ("abé".to_string(), '_', "c".to_string()),
        ("abé".to_string(), 'c', "".to_string()),
    ];
    assert_eq!(views, expected);
}

#[test]
fn retain_all_stops_at_marker_in_retained_text() {
    let mut s = String::from("code: -100054321-78912EOFhidden content");
    s.retain_all(|before, it, after| {
        if before.ends_with("EOF") {
            false
        } else {
            match (it, after.chars().next()) {
                ('-', Some(c)) => !c.is_ascii_digit(),
                (c, _) => !c.is_ascii_digit(),
            }
        }
    });
    assert_eq!(s, "code: EOF");
}

#[test]
fn retain_all_dropping_on_retained_text_drops_everything() {
    let mut s = String::from("Remove the first letter of each word");
    s.retain_all(|before, _, _| !matches!(before.chars().rev().next(), Some(' ') | None));
    assert_eq!(s, "");
}

#[test]
fn retain_default_first_letter_of_words() {
    let mut s = String::from("Remove the first letter of each word");
    let mut word_start = true;
    s.retain_default(|it| {
        if word_start {
            word_start = false;
            false
        } else if it == ' ' {
            word_start = true;
            true
        } else {
            true
        }
    });
    assert_eq!(s, "emove he irst etter f ach ord");
}

#[test]
fn retain_all_multibyte_first_dropped() {
    let mut s = String::from("૱uu");
    let mut index = 0;
    s.retain_all(|_, _, _| {
        index += 1;
        index != 1
    });
    assert_eq!(s, "uu");
    assert_eq!(s.as_bytes(), &[b'u', b'u']);
}

#[test]
fn retain_all_multibyte_kept_after_drop() {
    let mut s = String::from("x૱y😀");
    s.retain_default(|c| c != 'x' && c != 'y');
    assert_eq!(s, "૱😀");
    assert_eq!(s.as_bytes(), "૱😀".as_bytes());
}

#[test]
fn retain_after_redact_examples() {
    let mut a = String::from("this has no numbers");
    a.retain_after(redact);
    assert_eq!(a, "this has no numbers");
    let mut b = String::from("-12345");
    b.retain_after(redact);
    assert_eq!(b, "");
    let mut c = String::from("--12345");
    c.retain_after(redact);
    assert_eq!(c, "-");
}

#[test]
fn retain_default_matches_std_retain() {
    let inputs = ["", "abc", "α_β_γ", "૱uu", "a1b2c3", "😀x😀"];
    for input in inputs.iter() {
        let mut ours = input.to_string();
        let mut theirs = input.to_string();
        ours.retain_default(|c| c.is_alphabetic());
        theirs.retain(|c| c.is_alphabetic());
        assert_eq!(ours, theirs);
    }
}

#[test]
fn utf8_width_values() {
    assert_eq!(utf8_width('a'), 1);
    assert_eq!(utf8_width('\u{7f}'), 1);
    assert_eq!(utf8_width('é'), 2);
    assert_eq!(utf8_width('\u{7ff}'), 2);
    assert_eq!(utf8_width('૱'), 3);
    assert_eq!(utf8_width('\u{ffff}'), 3);
    assert_eq!(utf8_width('😀'), 4);
}

#[test]
fn shift_back_overlapping_and_apart() {
    let mut v = vec![1u8, 2, 3, 4, 5, 6];
    shift_back(&mut v, 2, 1, 3);
    assert_eq!(v, vec![1, 3, 4, 5, 5, 6]);
    let mut w = vec![1u8, 2, 3, 4, 5, 6];
    shift_back(&mut w, 4, 4, 2);
    assert_eq!(w, vec![5, 6, 3, 4, 5, 6]);
}

#[test]
fn safe_impl_wraps_value() {
    let mut w: SafeImpl<String> = SafeImpl::from(String::from("a_b"));
    assert_eq!(w.len(), 3);
    w.retain_default(|c| c != '_');
    assert_eq!(*w, "ab");
    assert_eq!(w.0, "ab");
}
