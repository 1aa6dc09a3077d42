use extractor::stats::LanguageStatistics;
use extractor::ExtractionStatistics;

fn lang(l: &str, n: usize) -> LanguageStatistics {
    LanguageStatistics {
        lang: l.to_string(),
        ftl_files_count: n,
        ftl_stored_keys_count: n,
        ftl_keys_updated: n,
        ftl_keys_added: n,
        ftl_keys_commented: n,
    }
}

#[test]
fn init_lang_lists_a_locale_at_zero() {
    let mut st = ExtractionStatistics::new();
    st.init_lang("en");
    st.init_lang("en");
    assert_eq!(st.languages.len(), 1);
    assert_eq!(st.languages[0].ftl_keys_added, 0);
}

#[test]
fn merge_adds_counters_per_locale() {
    let mut a = ExtractionStatistics::new();
    a.languages.push(lang("en", 2));
    let mut b = ExtractionStatistics::new();
    b.languages.push(lang("en", 3));
    b.languages.push(lang("de", 1));
    a.merge(b);
    assert_eq!(a.languages.len(), 2);
    let en = a.languages.iter().find(|l| l.lang == "en").unwrap();
    assert_eq!(en.ftl_keys_commented, 5);
    let de = a.languages.iter().find(|l| l.lang == "de").unwrap();
    assert_eq!(de.ftl_files_count, 1);
}
