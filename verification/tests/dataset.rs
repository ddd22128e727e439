use barometre_prix_web_fr::category;
use barometre_prix_web_fr::provider_type;
use barometre_prix_web_fr::{all, by_category, by_provider_type, categories, provider_types, PriceRecord};

const HEADER: &str = "categorie_prestation,type_prestataire,pricing_model,prix_min_eur,prix_max_eur,prix_typique_eur,region,source_categorie,source_url,date_releve,notes";

fn sample_csv() -> String {
    let rows = [
        HEADER,
        "vitrine,freelance,forfait_unique,800,2500,1500,France,Malt profil,https://www.malt.fr/exemple,2026-01-12,site 5 pages",
        "ecommerce,agence_guide,forfait_unique,5000,15000,9000,Paris,Grille tarifaire agence,https://agence.example.fr/tarifs,2026-01-15,catalogue, paiement, livraison",
        "blog,builder_saas,abonnement_mensuel,14,36,23,France,Wix Light,https://www.wix.com/premium-purchase-plan,2026-01-20,",
        "vitrine,builder_saas,abonnement_mensuel,14,39,23,France,Webflow Basic site plan (annuel, en USD converti),https://www.agence-synqro.fr/webflow-prix,2026-02-02,plan basic",
        "",
        "refonte,agence_guide,tjm,400,700,550,Lyon,Guide TJM,https://guide.example.fr/tjm,2026-02-10,tarif journalier",
        "seo_mensuel,freelance,abonnement_mensuel, 300 , 1200 , 600 ,France,Offre SEO,https://seo.example.fr,2026-02-11,suivi mensuel",
        "ligne,incomplete,sans,assez,de,champs",
        "sur_mesure,agence_guide,forfait_unique,20000,80000,40000,France,Devis sur mesure,pas-une-url,2026-02-12,x,y",
    ];
    rows.join("\n") + "\n"
}

fn generated_csv(rows: usize) -> String {
    let mut csv = String::from(HEADER);
    for i in 0..rows {
        csv.push_str(&format!(
            "\nvitrine,freelance,forfait_unique,{},{},{},France,Offre {},https://example.fr/{},2026-01-01,note {}",
            100 + i,
            200 + i,
            150 + i,
            i,
            i,
            i
        ));
    }
    csv
}

#[test]
fn dataset_parses_without_error() {
    let records = all(&sample_csv());
    assert!(!records.is_empty(), "the dataset should parse at least one record");
}

#[test]
fn record_count_is_above_ninety() {
    let records = all(&generated_csv(103));
    assert!(
        records.len() > 90,
        "expected more than 90 records, got {}",
        records.len()
    );
}

#[test]
fn known_category_returns_results() {
    let records = all(&sample_csv());
    let vitrine = by_category(&records, category::VITRINE);
    assert!(!vitrine.is_empty());
    for record in &vitrine {
        assert_eq!(record.category, "vitrine");
    }
}

#[test]
fn known_provider_type_returns_results() {
    let records = all(&sample_csv());
    let builders = by_provider_type(&records, provider_type::BUILDER_SAAS);
    assert!(!builders.is_empty());
    for record in &builders {
        assert_eq!(record.provider_type, "builder_saas");
    }
}

#[test]
fn unknown_category_returns_empty() {
    let records = all(&sample_csv());
    let none = by_category(&records, "does_not_exist");
    assert!(none.is_empty());
}

#[test]
fn categories_and_provider_types_are_deduplicated_and_sorted() {
    let records = all(&sample_csv());
    let cats = categories(&records);
    let mut sorted = cats.clone();
    sorted.sort_unstable();
    sorted.dedup();
    assert_eq!(cats, sorted, "categories() should be sorted and deduplicated");

    let providers = provider_types(&records);
    let mut sorted_providers = providers.clone();
    sorted_providers.sort_unstable();
    sorted_providers.dedup();
    assert_eq!(
        providers, sorted_providers,
        "provider_types() should be sorted and deduplicated"
    );
}

#[test]
fn rows_with_embedded_commas_in_notes_still_parse_source_url() {
    let records = all(&sample_csv());
    let matches: Vec<&PriceRecord> = records
        .iter()
        .filter(|r| r.source_url.starts_with("https://www.agence-synqro.fr"))
        .collect();
    assert!(!matches.is_empty(), "expected at least one Webflow-sourced record");
    for record in matches {
        assert!(record.source_url.starts_with("http"));
        assert_eq!(record.date_recorded.len(), 10, "date should be YYYY-MM-DD");
    }
}

#[test]
fn price_fields_are_never_negative() {
    for record in all(&sample_csv()) {
        assert!(record.price_min_eur.parse::<f64>().unwrap_or(0.0) >= 0.0);
        assert!(record.price_max_eur.parse::<f64>().unwrap_or(0.0) >= 0.0);
        assert!(record.typical_price_eur.parse::<f64>().unwrap_or(0.0) >= 0.0);
    }
}

#[test]
fn sample_dataset_keeps_record_lines_in_order() {
    let records = all(&sample_csv());
    let cats: Vec<&str> = records.iter().map(|r| r.category.as_str()).collect();
    assert_eq!(cats, vec!["vitrine", "ecommerce", "blog", "vitrine", "refonte", "seo_mensuel"]);
}

#[test]
fn header_is_skipped_and_empty_text_has_no_records() {
    assert!(all("").is_empty());
    assert!(all(HEADER).is_empty());
    let one = format!("{}\n{}", HEADER, "vitrine,freelance,forfait_unique,1,2,3,France,L,http://a,2026-01-01,n");
    assert_eq!(all(&one).len(), 1);
}

#[test]
fn by_category_keeps_dataset_order() {
    let records = all(&sample_csv());
    let vitrine = by_category(&records, category::VITRINE);
    let urls: Vec<&str> = vitrine.iter().map(|r| r.source_url.as_str()).collect();
    assert_eq!(urls, vec!["https://www.malt.fr/exemple", "https://www.agence-synqro.fr/webflow-prix"]);
}

#[test]
fn categories_lists_each_category_once_in_order() {
    let records = all(&sample_csv());
    assert_eq!(
        categories(&records),
        vec!["blog", "ecommerce", "refonte", "seo_mensuel", "vitrine"]
    );
    assert_eq!(
        provider_types(&records),
        vec!["agence_guide", "builder_saas", "freelance"]
    );
}

#[test]
fn listed_categories_select_records_and_others_do_not() {
    let records = all(&sample_csv());
    for c in categories(&records) {
        assert!(!by_category(&records, &c).is_empty());
    }
    for p in provider_types(&records) {
        assert!(!by_provider_type(&records, &p).is_empty());
    }
    assert!(by_category(&records, category::SUR_MESURE).is_empty());
    assert!(by_provider_type(&records, "inconnu").is_empty());
}

#[test]
fn queries_on_no_records_are_empty() {
    let records: Vec<PriceRecord> = Vec::new();
    assert!(categories(&records).is_empty());
    assert!(provider_types(&records).is_empty());
    assert!(by_category(&records, category::BLOG).is_empty());
}

#[test]
fn categories_and_provider_types_partition_the_records() {
    let records = all(&sample_csv());
    let by_cat: usize = categories(&records).iter().map(|c| by_category(&records, c).len()).sum();
    assert_eq!(by_cat, records.len());
    let by_prov: usize = provider_types(&records)
        .iter()
        .map(|p| by_provider_type(&records, p).len())
        .sum();
    assert_eq!(by_prov, records.len());
    assert_eq!(records.len(), 6);
}

#[test]
fn records_compare_and_clone() {
    let records = all(&sample_csv());
    let copy = records[0].clone();
    assert_eq!(copy, records[0]);
    assert_ne!(records[0], records[1]);
}
