use limited_writer::boundary::{len_utf8_at, prefix_to, scan_longest_fit, walk_longest_fit};

#[test]
fn test_len_utf8_at() {
    let s = "\u{0024}\u{00A2}\u{20AC}\u{10348}";
    assert_eq!(len_utf8_at(s, 0), 1);
    assert_eq!(len_utf8_at(s, 1), 2);
    assert_eq!(len_utf8_at(s, 3), 3);
    assert_eq!(len_utf8_at(s, 6), 4);
}

#[test]
fn len_utf8_at_extremes_of_each_width() {
    assert_eq!(len_utf8_at("\u{0}", 0), 1);
    assert_eq!(len_utf8_at("\u{7F}", 0), 1);
    assert_eq!(len_utf8_at("\u{80}", 0), 2);
    assert_eq!(len_utf8_at("\u{7FF}", 0), 2);
    assert_eq!(len_utf8_at("\u{800}", 0), 3);
    assert_eq!(len_utf8_at("\u{FFFF}", 0), 3);
    assert_eq!(len_utf8_at("\u{10000}", 0), 4);
    assert_eq!(len_utf8_at("\u{10FFFF}", 0), 4);
}

#[test]
fn len_utf8_at_agrees_with_char_len() {
    let s = "a\u{00E9}\u{4E2D}\u{1F600}z";
    for (i, c) in s.char_indices() {
        assert_eq!(len_utf8_at(s, i), c.len_utf8());
    }
}

#[test]
fn scan_finds_last_boundary_within_room() {
    let s = "\u{0024}\u{00A2}\u{20AC}\u{10348}";
    let want: [usize; 13] = [0, 1, 1, 3, 3, 3, 6, 6, 6, 6, 10, 10, 10];
    for room in 0..want.len() {
        assert_eq!(scan_longest_fit(s, room), want[room]);
    }
    assert_eq!(scan_longest_fit(s, usize::MAX), 10);
}

#[test]
fn walk_finds_last_boundary_within_room() {
    let s = "\u{0024}\u{00A2}\u{20AC}\u{10348}";
    let want: [usize; 13] = [0, 1, 1, 3, 3, 3, 6, 6, 6, 6, 10, 10, 10];
    for room in 0..want.len() {
        assert_eq!(walk_longest_fit(s, room), want[room]);
    }
    assert_eq!(walk_longest_fit(s, usize::MAX), 10);
}

#[test]
fn scan_and_walk_on_empty_text() {
    assert_eq!(scan_longest_fit("", 0), 0);
    assert_eq!(scan_longest_fit("", 7), 0);
    assert_eq!(walk_longest_fit("", 0), 0);
    assert_eq!(walk_longest_fit("", 7), 0);
}

#[test]
fn scan_and_walk_agree() {
    let texts = [
        "",
        "plain ascii",
        "\u{00E9}\u{00E9}\u{00E9}",
        "a\u{4E2D}b\u{6587}c",
        "\u{1F600}\u{1F601}x",
        "\u{0024}\u{00A2}\u{20AC}\u{10348}",
    ];
    for s in texts {
        for room in 0..(s.len() + 3) {
            let k = scan_longest_fit(s, room);
            assert_eq!(k, walk_longest_fit(s, room));
            assert!(k <= room);
            assert!(k <= s.len());
            assert!(s.is_char_boundary(k));
            for j in (k + 1)..(s.len() + 1) {
                assert!(j > room || !s.is_char_boundary(j));
            }
        }
    }
}

#[test]
fn prefix_to_cuts_at_boundary() {
    let s = "\u{0024}\u{00A2}\u{20AC}\u{10348}";
    assert_eq!(prefix_to(s, 0), "");
    assert_eq!(prefix_to(s, 1), "\u{0024}");
    assert_eq!(prefix_to(s, 3), "\u{0024}\u{00A2}");
    assert_eq!(prefix_to(s, 6), "\u{0024}\u{00A2}\u{20AC}");
    assert_eq!(prefix_to(s, 10), s);
}
