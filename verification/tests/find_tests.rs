use rustdown_viewer::find::Finder;

#[test]
fn finds_and_replaces() {
    let mut f = Finder::default();
    f.query = "foo".into();
    assert_eq!(f.matches("foo bar foo").len(), 2);
    f.replace = "X".into();
    let (t, n) = f.replace_all("foo bar foo");
    assert_eq!(n, 2);
    assert_eq!(t, "X bar X");
}

#[test]
fn case_insensitive_default() {
    let f = Finder { query: "foo".into(), ..Default::default() };
    assert_eq!(f.matches("FOO foo").len(), 2);
}

#[test]
fn case_sensitive_and_non_overlapping() {
    let f = Finder { query: "aa".into(), case_sensitive: true, ..Default::default() };
    let m = f.matches("aaaa AA");
    assert_eq!(m, vec![0..2, 2..4]);
    assert_eq!(Finder::replace_at("say hi", &(4..6), "yo"), "say yo");
}

#[test]
fn replace_at_round_trip() {
    let text = "héllo wörld";
    let m = 7..13;
    let r = Finder::replace_at(text, &m, "ü");
    assert_eq!(r, "héllo ü");
    let back = Finder::replace_at(&r, &(m.start..m.start + "ü".len()), &text[m.clone()]);
    assert_eq!(back, text);
}

#[test]
fn case_sensitive_replace_all_agrees_with_str_replace() {
    for (text, q, r) in [("aaaa", "aa", "b"), ("x.y.z", ".", "::"), ("héé", "é", "e"), ("none", "zz", "y"), ("", "a", "b")] {
        let f = Finder { query: q.into(), replace: r.into(), case_sensitive: true, ..Default::default() };
        let (out, n) = f.replace_all(text);
        assert_eq!(out, text.replace(q, r));
        assert_eq!(n, text.matches(q).count());
        assert_eq!(n, f.matches(text).len());
        if n == 0 {
            assert_eq!(out, text);
        }
    }
}
