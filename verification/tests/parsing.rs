use barometre_prix_web_fr::parse_row;
use barometre_prix_web_fr::text::{join_commas, lex_less, lines_text, split_text, starts_with_text, trim_text, white_space};

#[test]
fn parse_row_gives_each_field() {
    let r = parse_row("vitrine,freelance,forfait_unique, 800 ,2500,1500\t,France,Malt profil,https://www.malt.fr/x,2026-01-12,site 5 pages")
        .expect("a complete line");
    assert_eq!(r.category, "vitrine");
    assert_eq!(r.provider_type, "freelance");
    assert_eq!(r.pricing_model, "forfait_unique");
    assert_eq!(r.price_min_eur, "800");
    assert_eq!(r.price_max_eur, "2500");
    assert_eq!(r.typical_price_eur, "1500");
    assert_eq!(r.region, "France");
    assert_eq!(r.source_label, "Malt profil");
    assert_eq!(r.source_url, "https://www.malt.fr/x");
    assert_eq!(r.date_recorded, "2026-01-12");
    assert_eq!(r.notes, "site 5 pages");
}

#[test]
fn parse_row_rejoins_commas_in_label_and_notes() {
    let r = parse_row("vitrine,builder_saas,abonnement_mensuel,14,39,23,France,Webflow Basic (annuel, en USD converti),https://www.agence-synqro.fr/w,2026-02-02,a,b,,c")
        .expect("a complete line");
    assert_eq!(r.source_label, "Webflow Basic (annuel, en USD converti)");
    assert_eq!(r.source_url, "https://www.agence-synqro.fr/w");
    assert_eq!(r.date_recorded, "2026-02-02");
    assert_eq!(r.notes, "a,b,,c");
}

#[test]
fn parse_row_takes_first_http_field_and_allows_empty_label_and_notes() {
    let r = parse_row("a,b,c,1,2,3,R,http://first,http://second,2026-01-01,").expect("a line");
    assert_eq!(r.source_label, "");
    assert_eq!(r.source_url, "http://first");
    assert_eq!(r.date_recorded, "http://second");
    assert_eq!(r.notes, "2026-01-01,");
}

#[test]
fn parse_row_rejects_lines_without_a_record() {
    assert!(parse_row("").is_none());
    assert!(parse_row("   \t ").is_none());
    assert!(parse_row("a,b,c,1,2,3,R,L,http://u,2026").is_none());
    assert!(parse_row("a,b,c,1,2,3,R,L,nourl,2026-01-01,n").is_none());
    assert!(parse_row("a,b,c,1,2,3,R,L,x,y,http://u").is_none());
    assert!(parse_row("a,b,c,1,2,3,http://region,L,x,y,z").is_none());
}

#[test]
fn text_helpers_behave_as_std() {
    assert_eq!(split_text("a,,b,", ','), vec!["a", "", "b", ""]);
    assert_eq!(split_text("", ','), vec![""]);
    assert_eq!(trim_text("\u{3000} x y \u{a0}\n"), "x y");
    assert_eq!(trim_text(" \t "), "");
    assert!(white_space('\u{2028}'));
    assert!(!white_space(','));
    assert!(starts_with_text("https://x", "http"));
    assert!(!starts_with_text("htt", "http"));
    assert!(lex_less("blog", "vitrine"));
    assert!(lex_less("ab", "abc"));
    assert!(!lex_less("abc", "abc"));
    assert!(!lex_less("é", "z"));
    let parts = split_text("a,b,c,d", ',');
    assert_eq!(join_commas(&parts, 1, 3), "b,c");
    assert_eq!(join_commas(&parts, 2, 2), "");
}

#[test]
fn lines_follow_str_lines() {
    for text in ["", "a", "a\n", "a\r\nb", "a\n\nb\n", "a\r", "x\r\n\r\ny\r", "\n"] {
        let expected: Vec<&str> = text.lines().collect();
        assert_eq!(lines_text(text), expected, "lines of {:?}", text);
    }
}
