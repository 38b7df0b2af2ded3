use fix_i18n_links::locale::{is_locale_code, select_locales};
use fix_i18n_links::tally::{is_doc_extension, Tally};

#[test]
fn locale_codes() {
    assert!(is_locale_code("es"));
    assert!(is_locale_code("zh-CN"));
    assert!(!is_locale_code("not-a-locale"));
    assert!(!is_locale_code("ES"));
    assert!(!is_locale_code("e"));
    assert!(!is_locale_code("zh-cn"));
    assert!(!is_locale_code("zh_CN"));
    assert!(!is_locale_code("esp"));
    assert!(!is_locale_code(""));
}

#[test]
fn discovery_keeps_locales_sorted() {
    let names = vec!["es".to_string(), "not-a-locale".to_string(), "zh-CN".to_string()];
    assert_eq!(select_locales(&names), vec!["es".to_string(), "zh-CN".to_string()]);
}

#[test]
fn discovery_sorts_any_order() {
    let names: Vec<String> = ["zh-TW", "fr", "assets", "zh-CN", "de", "es"].iter().map(|s| s.to_string()).collect();
    let want: Vec<String> = ["de", "es", "fr", "zh-CN", "zh-TW"].iter().map(|s| s.to_string()).collect();
    assert_eq!(select_locales(&names), want);
}

#[test]
fn discovery_of_nothing() {
    assert!(select_locales(&vec![]).is_empty());
    assert!(select_locales(&vec!["images".to_string()]).is_empty());
}

#[test]
fn doc_extension() {
    assert!(is_doc_extension("mdx"));
    assert!(!is_doc_extension("md"));
    assert!(!is_doc_extension("MDX"));
    assert!(!is_doc_extension(""));
}

#[test]
fn tallies_accumulate() {
    let mut file_level = Tally::new();
    file_level.count_file();
    file_level.count_file();
    file_level.count_written(3);
    assert_eq!((file_level.files, file_level.modified, file_level.links_fixed), (2, 1, 3));
    let mut total = Tally::new();
    total.absorb(&file_level);
    total.absorb(&file_level);
    assert_eq!((total.files, total.modified, total.links_fixed), (4, 2, 6));
}
