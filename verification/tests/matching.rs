use progress_engine::index::{keyname, Card, Index, KeywordVocabulary, TagGap, TagVocabulary, SCHEMA};
use progress_engine::legality::{Legalities, LegalityWord};
use progress_engine::matching::{CardView, Order};
use progress_engine::query::{parse, Query};

/// How two numbers, as written, compare: what a caller hands the matcher.
fn compare(a: String, b: String) -> Option<Order> {
    let x: f64 = a.parse().ok()?;
    let y: f64 = b.parse().ok()?;
    x.partial_cmp(&y).map(|o| match o {
        std::cmp::Ordering::Less => Order::Less,
        std::cmp::Ordering::Equal => Order::Equal,
        std::cmp::Ordering::Greater => Order::Greater,
    })
}

/// An index that said nothing about legality, which is what a hand-written
/// fixture is.
fn silent() -> &'static Legalities {
    static SILENT: std::sync::OnceLock<Legalities> = std::sync::OnceLock::new();
    SILENT.get_or_init(Legalities::default)
}

/// A mana value as the card data writes it.
fn written(cmc: f64) -> &'static str {
    Box::leak(format!("{cmc}").into_boxed_str())
}

fn card<'a>(
    name: &'a str,
    type_line: &'a str,
    oracle: &'a str,
    cmc: f64,
    ci: &'a [String],
    cats: &'a [String],
) -> CardView<'a> {
    CardView {
        name,
        type_line,
        oracle,
        mana_value: written(cmc),
        keywords: &[],
        color_identity: ci,
        rarity: "",
        legalities: silent(),
        tags: &[],
        categories: cats,
    }
}

fn keyworded<'a>(name: &'a str, oracle: &'a str, keywords: &'a [String]) -> CardView<'a> {
    CardView {
        name,
        type_line: "Creature — Bird",
        oracle,
        mana_value: written(2.0),
        keywords,
        color_identity: &[],
        rarity: "",
        legalities: silent(),
        tags: &[],
        categories: &[],
    }
}

fn keywords(list: &[&str]) -> Vec<String> {
    list.iter().map(|k| k.to_string()).collect()
}

fn white() -> Vec<String> {
    vec!["W".to_string()]
}

fn matches(q: &str, c: &CardView<'_>) -> bool {
    parse(q).expect("query should parse").matches(c, &compare)
}

#[test]
fn type_and_oracle_are_case_insensitive_substrings() {
    let ci = white();
    let cats = vec![];
    let plains = card("Plains", "Basic Land — Plains", "({T}: Add {W}.)", 0.0, &ci, &cats);
    assert!(matches("t:land", &plains));
    assert!(matches("t:LAND", &plains));
    assert!(matches(r#"o:"Add {W}""#, &plains));
    assert!(!matches("t:creature", &plains));
}

#[test]
fn the_kor_haven_trap() {
    let ci = white();
    let cats = vec![];
    let kor_haven = card(
        "Kor Haven",
        "Legendary Land",
        "{T}: Add {C}.\n{1}{W}, {T}: Prevent all combat damage that would be dealt by target attacking creature this turn.",
        0.0,
        &ci,
        &cats,
    );
    assert!(matches(r#"o:"{W}""#, &kor_haven));
    assert!(!matches(r#"o:"Add {W}""#, &kor_haven));
}

#[test]
fn mana_value_comparators() {
    let ci = white();
    let cats = vec![];
    let c = card("Senu", "Legendary Creature — Bird Scout", "Flying", 2.0, &ci, &cats);
    assert!(matches("mv<=2", &c));
    assert!(matches("mv=2", &c));
    assert!(matches("cmc:2", &c));
    assert!(matches("mv<3", &c));
    assert!(!matches("mv>2", &c));
    assert!(matches("mv!=3", &c));
}

#[test]
fn identity_is_subset_not_ordering() {
    let cats = vec![];
    let wu = vec!["W".to_string(), "U".to_string()];
    let w = white();
    let azorius = card("Thing", "Creature", "", 2.0, &wu, &cats);
    let mono_white = card("Other", "Creature", "", 2.0, &w, &cats);
    assert!(matches("id<=W", &mono_white));
    assert!(!matches("id<=W", &azorius));
    assert!(matches("id<=WU", &azorius));
    assert!(matches("id:W", &mono_white));
    assert!(matches("id=WU", &azorius));
}

#[test]
fn categories_come_from_the_decklist() {
    let ci = white();
    let cats = vec!["Exile Outlet".to_string(), "Big Colorless".to_string()];
    let c = card("Safe Haven", "Land", "", 0.0, &ci, &cats);
    assert!(matches(r#"cat:"Exile Outlet""#, &c));
    assert!(matches(r#"cat:"exile outlet""#, &c));
    assert!(!matches(r#"cat:"Draw""#, &c));
}

#[test]
fn boolean_combinators() {
    let ci = white();
    let cats = vec![];
    let teshar = card("Teshar, Ancestor's Apostle", "Legendary Creature — Bird Cleric", "Flying", 4.0, &ci, &cats);
    assert!(matches("t:legendary t:creature", &teshar));
    assert!(matches("t:legendary and t:creature", &teshar));
    assert!(matches("(o:flying or o:menace)", &teshar));
    assert!(matches("t:creature -t:land", &teshar));
    assert!(!matches("t:creature -t:legendary", &teshar));
    assert!(matches("t:instant or t:creature", &teshar));
}

#[test]
fn is_properties() {
    let ci = white();
    let cats = vec![];
    let land = card("Plains", "Basic Land — Plains", "", 0.0, &ci, &cats);
    let bolt = card("Swords", "Instant", "", 1.0, &ci, &cats);
    let teshar = card("Teshar", "Legendary Creature — Bird", "", 4.0, &ci, &cats);
    assert!(matches("is:permanent", &land));
    assert!(!matches("is:permanent", &bolt));
    assert!(matches("is:spell", &bolt));
    assert!(!matches("is:spell", &land));
    assert!(matches("is:historic", &teshar));
}

#[test]
fn quoted_or_is_a_value_not_an_operator() {
    let ci = white();
    let cats = vec![];
    let c = card("Orzhov Signet", "Artifact", "", 2.0, &ci, &cats);
    assert!(matches(r#"name:"Or""#, &c));
}

#[test]
fn a_card_matches_only_the_keywords_it_has() {
    let birds = keywords(&["Flying"]);
    let birds = keyworded("Birds of Paradise", "Flying\n{T}: Add one mana of any color.", &birds);
    let bolt = keywords(&[]);
    let bolt = keyworded("Lightning Bolt", "Lightning Bolt deals 3 damage to any target.", &bolt);
    assert!(matches("kw:flying", &birds));
    assert!(!matches("kw:trample", &birds));
    assert!(!matches("kw:flying", &bolt));
}

#[test]
fn keyword_matching_ignores_case_the_way_scryfall_does() {
    let kws = keywords(&["Flying", "Double strike"]);
    let c = keyworded("Adorned Pouncer", "Double strike", &kws);
    assert!(matches("kw:FLYING", &c));
    assert!(matches("kw:Flying", &c));
    assert!(matches(r#"kw:"DOUBLE STRIKE""#, &c));
    assert!(matches("keyword:flying", &c));
}

#[test]
fn a_keyword_is_a_whole_value_not_a_substring() {
    let kws = keywords(&["Trample"]);
    let c = keyworded("Colossal Dreadmaw", "Trample", &kws);
    assert!(matches("kw:trample", &c));
    assert!(!matches("kw:tramp", &c));
    assert!(!matches("kw:trampleover", &c));

    let hexproof = keywords(&["Hexproof from", "Hexproof"]);
    let valkyrie = keyworded("Eradicator Valkyrie", "Hexproof from planeswalkers", &hexproof);
    assert!(matches(r#"kw:"hexproof from""#, &valkyrie));
    assert!(matches("kw:hexproof", &valkyrie));

    let only_from = keywords(&["Hexproof from"]);
    let only_from = keyworded("Hypothetical", "Hexproof from red", &only_from);
    assert!(!matches("kw:hexproof", &only_from));
}

#[test]
fn kw_asks_what_a_card_has_where_o_asks_what_it_says() {
    let none = keywords(&[]);
    let plummet = keyworded("Plummet", "Destroy target creature with flying.", &none);
    assert!(matches("o:flying", &plummet));
    assert!(!matches("kw:flying", &plummet));
}

/// A card that carries nothing but a name, a type line and keywords.
fn bare(name: &str, type_line: &str, keywords: &[&str]) -> Card {
    Card {
        name: name.to_string(),
        oracle_id: None,
        layout: String::new(),
        ci: Vec::new(),
        colors: Vec::new(),
        type_line: type_line.to_string(),
        mana_cost: String::new(),
        cmc: "0".to_string(),
        oracle: String::new(),
        full_oracle: None,
        keywords: keywords.iter().map(|k| k.to_string()).collect(),
        produces: Vec::new(),
        rarity: String::new(),
        set: String::new(),
        faces: Vec::new(),
        legalities: Legalities::default(),
        commander_legal: LegalityWord::default(),
        any_number: None,
        game_changer: None,
        reserved: None,
        tags: Vec::new(),
    }
}

fn index_of(cards: &[(&str, &[&str])]) -> Index {
    Index {
        cards: cards.iter().map(|(name, kws)| bare(name, "", kws)).collect(),
        schema: Some(SCHEMA),
        updated_at: None,
        tags: Vec::new(),
    }
}

fn index_with_tags(tags: &[&str]) -> Index {
    Index { cards: Vec::new(), schema: Some(SCHEMA), updated_at: None, tags: tags.iter().map(|t| t.to_string()).collect() }
}

#[test]
fn a_card_the_index_never_gave_keywords_has_none_rather_than_panicking() {
    let solemn = bare("Solemn Simulacrum", "Artifact Creature — Golem", &[]);
    let view = solemn.view(&[]);
    assert!(!matches("kw:flying", &view));
    assert!(matches("t:artifact", &view));
}

#[test]
fn a_keyword_no_card_carries_is_a_typo_the_index_can_name() {
    let index = index_of(&[("Birds of Paradise", &["Flying"])]);
    let vocabulary = index.keyword_vocabulary();
    let q = parse("kw:flyign or (t:land -kw:Flying)").expect("query should parse");
    assert_eq!(q.unknown_keywords(&vocabulary), vec!["flyign".to_string()]);
}

#[test]
fn an_index_silent_about_keywords_accuses_no_query_of_a_typo() {
    let index = index_of(&[("Plains", &[])]);
    let q = parse("kw:flying").expect("query should parse");
    assert!(q.unknown_keywords(&index.keyword_vocabulary()).is_empty());
}

#[test]
fn a_tag_the_index_did_not_fetch_is_named_rather_than_counted_as_zero() {
    let index = index_with_tags(&["surveil", "scry"]);
    let q = parse("t:land (otag:mill or otag:surveil)").expect("query should parse");
    assert_eq!(q.tag_gap(&index.tag_vocabulary()), Some(TagGap::NotCarried(vec!["mill".to_string()])));
}

#[test]
fn an_index_with_no_tags_says_so_rather_than_shrugging() {
    let index = index_with_tags(&[]);
    let q = parse("otag:surveil or otag:surveil").expect("query should parse");
    assert_eq!(q.tag_gap(&index.tag_vocabulary()), Some(TagGap::NoneFetched(vec!["surveil".to_string()])));
}

#[test]
fn a_tag_the_index_carries_is_no_gap_at_all() {
    let index = index_with_tags(&["surveil"]);
    let q = parse("t:land otag:surveil").expect("query should parse");
    assert_eq!(q.tag_gap(&index.tag_vocabulary()), None);
}

// Beyond the cases above.

#[test]
fn a_mana_value_that_is_not_a_number_satisfies_no_comparison() {
    let ci = white();
    let cats = vec![];
    let mut c = card("Odd", "Creature", "", 2.0, &ci, &cats);
    c.mana_value = "";
    assert!(!matches("mv<=2", &c));
    assert!(!matches("mv>2", &c));
    assert!(matches("-mv=2", &c));
}

#[test]
fn half_points_compare_as_numbers() {
    let ci = white();
    let cats = vec![];
    let c = card("Little Girl", "Creature — Human Child", "", 0.5, &ci, &cats);
    assert!(matches("mv<1", &c));
    assert!(matches("mv>0", &c));
    assert!(!matches("mv=0", &c));
}

#[test]
fn rarity_and_format_read_the_card_data() {
    let ci = white();
    let cats = vec![];
    let legal = Legalities::from_words(&[("commander".to_string(), "legal".to_string())]);
    let mut c = card("Sol Ring", "Artifact", "{T}: Add {C}{C}.", 1.0, &ci, &cats);
    c.rarity = "uncommon";
    c.legalities = &legal;
    assert!(matches("r:uncommon", &c));
    assert!(matches("r>=common", &c));
    assert!(!matches("r>=rare", &c));
    assert!(matches("f:commander", &c));
    assert!(!matches("f:modern", &c));
}

#[test]
fn a_vanilla_creature_has_no_rules_text() {
    let ci = white();
    let cats = vec![];
    let bears = card("Grizzly Bears", "Creature — Bear", "  ", 2.0, &ci, &cats);
    let senu = card("Senu", "Creature — Bird", "Flying", 2.0, &ci, &cats);
    assert!(matches("is:vanilla", &bears));
    assert!(!matches("is:vanilla", &senu));
}

#[test]
fn tags_match_exactly() {
    let ci = white();
    let cats = vec![];
    let tags = vec!["tapland".to_string()];
    let mut c = card("Guildgate", "Land — Gate", "", 0.0, &ci, &cats);
    c.tags = &tags;
    assert!(matches("otag:tapland", &c));
    assert!(!matches("otag:Tapland", &c));
    assert!(!matches("otag:tap", &c));
}

#[test]
fn a_keyword_vocabulary_is_every_keyword_lowercased() {
    let index = index_of(&[("Birds of Paradise", &["Flying"]), ("Dreadmaw", &["Trample"])]);
    let v: KeywordVocabulary = index.keyword_vocabulary();
    assert!(v.contains("FLYING"));
    assert!(v.contains("trample"));
    assert!(!v.contains("reach"));
    assert_eq!(index.get("  birds of paradise ").map(|c| c.name.clone()), Some("Birds of Paradise".to_string()));
    assert_eq!(index.position("Dreadmaw"), Some(1));
    assert!(!index.contains("Reach"));
    assert_eq!(keyname(" Dreadmaw"), "dreadmaw");
}

#[test]
fn unknown_keywords_are_named_once_each() {
    let index = index_of(&[("Birds of Paradise", &["Flying"])]);
    let q = parse("kw:zzz kw:Flying kw:zzz kw:yyy").expect("query should parse");
    assert_eq!(q.unknown_keywords(&index.keyword_vocabulary()), vec!["zzz".to_string(), "yyy".to_string()]);
    let vocab = TagVocabulary::new(vec!["surveil".to_string()]);
    assert!(vocab.contains("surveil"));
    assert!(!vocab.contains("Surveil"));
    let plain = parse("t:land").expect("query should parse");
    assert_eq!(plain.tag_gap(&vocab), None);
    assert_eq!(plain.tag_gap(&TagVocabulary::new(Vec::new())), None);
    assert!(matches!(parse("kw:x"), Ok(Query::Keyword(_))));
}
