use novel_text::token::Id;
use novel_text::term::{Term, TermMap};

fn chars(s: &str) -> Vec<char> {
    s.chars().collect()
}

fn sample_term(id: &str, body: &str) -> Term {
    Term::new(
        Id::new(id.to_string()),
        body.to_string(),
        "む".to_string(),
        String::new(),
        false,
    )
}

#[test]
fn term_fields_are_kept() {
    let t = Term::new(
        Id::new("term_id1".to_string()),
        "穂積".to_string(),
        "ほづみ".to_string(),
        "名前".to_string(),
        true,
    );
    assert_eq!(t.id().value, "term_id1");
    assert_eq!(t.body(), &chars("穂積"));
    assert_eq!(t.ruby(), &chars("ほづみ"));
    assert_eq!(t.description(), &chars("名前"));
    assert!(t.has_detail());
}

#[test]
fn lookup_finds_exact_match() {
    let m = TermMap::new(vec![sample_term("term_id1", "無")]);
    let input = chars("無");
    let hit = m.lookup(&input, 0);
    let (end, id) = hit.expect("term should match");
    assert_eq!(end, 1);
    assert_eq!(id.value, "term_id1");
}

#[test]
fn lookup_prefers_longest_match() {
    let m = TermMap::new(vec![
        sample_term("term_id1", "穂積しょう"),
        sample_term("term_id2", "穂積"),
    ]);
    let input = chars("穂積しょうたろう");
    let (end, id) = m.lookup(&input, 0).expect("term should match");
    assert_eq!(end, 5);
    assert_eq!(id.value, "term_id1");
}

#[test]
fn lookup_falls_back_to_shorter_match() {
    let m = TermMap::new(vec![
        sample_term("term_id1", "穂積しょう"),
        sample_term("term_id2", "穂積"),
    ]);
    let input = chars("穂積たろう");
    let (end, id) = m.lookup(&input, 0).expect("term should match");
    assert_eq!(end, 2);
    assert_eq!(id.value, "term_id2");
}

#[test]
fn lookup_misses_without_full_body() {
    let m = TermMap::new(vec![sample_term("term_id1", "穂積")]);
    let input = chars("穂");
    assert!(m.lookup(&input, 0).is_none());
}

#[test]
fn lookup_misses_on_other_text() {
    let m = TermMap::new(vec![sample_term("term_id1", "穂積")]);
    let input = chars("しょう");
    assert!(m.lookup(&input, 0).is_none());
}

#[test]
fn lookup_works_mid_input() {
    let m = TermMap::new(vec![sample_term("term_id1", "穂積")]);
    let input = chars("あ穂積い");
    let (end, id) = m.lookup(&input, 1).expect("term should match");
    assert_eq!(end, 3);
    assert_eq!(id.value, "term_id1");
}

#[test]
fn index_is_input_order_independent() {
    let a = TermMap::new(vec![
        sample_term("id_a", "山"),
        sample_term("id_b", "山田"),
        sample_term("id_c", "川"),
    ]);
    let b = TermMap::new(vec![
        sample_term("id_c", "川"),
        sample_term("id_b", "山田"),
        sample_term("id_a", "山"),
    ]);
    assert_eq!(a, b);
    let probe = chars("山田さん");
    let ra = a.lookup(&probe, 0).expect("match");
    let rb = b.lookup(&probe, 0).expect("match");
    assert_eq!(ra, rb);
    assert_eq!(ra.0, 2);
    assert_eq!(ra.1.value, "id_b");
}

#[test]
fn lookup_distinguishes_first_characters() {
    let m = TermMap::new(vec![
        sample_term("id_a", "山"),
        sample_term("id_b", "川"),
        sample_term("id_c", "海"),
    ]);
    let i1 = chars("川");
    assert_eq!(m.lookup(&i1, 0).expect("match").1.value, "id_b");
    let i2 = chars("海山川");
    assert_eq!(m.lookup(&i2, 0).expect("match").1.value, "id_c");
    let i3 = chars("空");
    assert!(m.lookup(&i3, 0).is_none());
}
