use fix_i18n_links::exclude::should_exclude_url;
use fix_i18n_links::rewrite::rewrite;

#[test]
fn exclude_already_localized() {
    assert!(should_exclude_url("/es/guide", "es"));
    assert!(should_exclude_url("/zh-CN/a/b", "zh-CN"));
    assert!(!should_exclude_url("/fr/guide", "es"));
    assert!(!should_exclude_url("/es", "es"));
    assert!(!should_exclude_url("/esguide", "es"));
}

#[test]
fn exclude_http_prefix_is_textual() {
    assert!(should_exclude_url("http://x.com", "es"));
    assert!(should_exclude_url("https://x.com/a", "es"));
    assert!(should_exclude_url("http-guide", "es"));
    assert!(!should_exclude_url("/http-guide", "es"));
}

#[test]
fn exclude_anchor_and_txt() {
    assert!(should_exclude_url("#top", "es"));
    assert!(should_exclude_url("/llms.txt", "es"));
    assert!(should_exclude_url(".txt", "es"));
    assert!(!should_exclude_url("/notes.txt/more", "es"));
    assert!(!should_exclude_url("/guide/setup", "es"));
    assert!(!should_exclude_url("", "es"));
}

#[test]
fn markdown_link_gets_prefix() {
    let r = rewrite("Check [docs](/guide/setup) and [skip](http://x.com)", "es");
    assert_eq!(r.content, "Check [docs](/es/guide/setup) and [skip](http://x.com)");
    assert_eq!(r.links_fixed, 1);
    assert!(r.modified);
}

#[test]
fn card_link_gets_prefix() {
    let r = rewrite("<LinkCard title=\"X\" href=\"/guide/setup\" icon=\"doc\" />", "fr");
    assert_eq!(r.content, "<LinkCard title=\"X\" href=\"/fr/guide/setup\" icon=\"doc\" />");
    assert_eq!(r.links_fixed, 1);
    assert!(r.modified);
}

#[test]
fn prefixed_link_left_identical() {
    let doc = "See [guide](/es/guide) and <LinkCard href=\"/es/guide/x\" />.";
    let r = rewrite(doc, "es");
    assert_eq!(r.content, doc);
    assert_eq!(r.links_fixed, 0);
    assert!(!r.modified);
}

#[test]
fn second_run_changes_nothing() {
    let doc = "[a](/x) [b](/es) <LinkCard\n  href=\"/y\"\n/> [c](/es/z) [d](/d.txt)";
    let first = rewrite(doc, "es");
    assert_eq!(first.links_fixed, 3);
    assert_eq!(
        first.content,
        "[a](/es/x) [b](/es/es) <LinkCard\n  href=\"/es/y\"\n/> [c](/es/z) [d](/d.txt)"
    );
    let second = rewrite(&first.content, "es");
    assert_eq!(second.content, first.content);
    assert_eq!(second.links_fixed, 0);
    assert!(!second.modified);
}

#[test]
fn text_without_links_unchanged() {
    for doc in ["", "plain text", "[label] (/x)", "[a](#top)", "[a]()", "<LinkCardhref=\"/x\">", "ünïcödé [x](y)"] {
        let r = rewrite(doc, "de");
        assert_eq!(r.content, doc);
        assert_eq!(r.links_fixed, 0);
        assert!(!r.modified);
    }
}

#[test]
fn every_markdown_link_is_fixed() {
    let r = rewrite("[a](/x) and [b](/y#part) and [c](/z)", "it");
    assert_eq!(r.content, "[a](/it/x) and [b](/it/y#part) and [c](/it/z)");
    assert_eq!(r.links_fixed, 3);
}

#[test]
fn markdown_label_runs_to_first_bracket() {
    let r = rewrite("[a [b](/x)", "es");
    assert_eq!(r.content, "[a [b](/es/x)");
    assert_eq!(r.links_fixed, 1);
    let r = rewrite("[a] [b](/x)", "es");
    assert_eq!(r.content, "[a] [b](/es/x)");
}

#[test]
fn markdown_target_not_closed() {
    let r = rewrite("[a](/x and more", "es");
    assert_eq!(r.content, "[a](/x and more");
    assert!(!r.modified);
}

#[test]
fn card_takes_last_href() {
    let r = rewrite("<LinkCard title=\"a\" href=\"/x\" other href=\"/y\" />", "fr");
    assert_eq!(r.content, "<LinkCard title=\"a\" href=\"/x\" other href=\"/fr/y\" />");
    assert_eq!(r.links_fixed, 1);
}

#[test]
fn card_anchor_and_external_untouched() {
    let doc = "<LinkCard href=\"#top\" /> <LinkCard href=\"https://a.b\" />";
    let r = rewrite(doc, "fr");
    assert_eq!(r.content, doc);
    assert!(!r.modified);
}

#[test]
fn both_kinds_fixed_in_one_call() {
    let r = rewrite("[a](/x)\n<LinkCard\thref=\"/y\">\n", "zh-CN");
    assert_eq!(r.content, "[a](/zh-CN/x)\n<LinkCard\thref=\"/zh-CN/y\">\n");
    assert_eq!(r.links_fixed, 2);
    assert!(r.modified);
}

#[test]
fn non_ascii_text_is_kept() {
    let r = rewrite("Guía: [configuración](/guía/ñ) ✓", "es");
    assert_eq!(r.content, "Guía: [configuración](/es/guía/ñ) ✓");
    assert_eq!(r.links_fixed, 1);
}
