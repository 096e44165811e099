use hermes_tui::slash_fuzzy::{
    fuzzy_rank_slash_items, normalize_slash_search_query, score_fields,
    score_slash_completion_item, tokenize_search_text, SlashCompletionItem,
};

fn item(text: &str, meta: &str) -> SlashCompletionItem {
    SlashCompletionItem::new(text, meta)
}

#[test]
fn normalize_query() {
    assert_eq!(normalize_slash_search_query(" /Model "), "model");
    assert_eq!(normalize_slash_search_query("//help"), "help");
    assert_eq!(normalize_slash_search_query("plain"), "plain");
    assert_eq!(normalize_slash_search_query("  ///Foo  "), "foo");
}

#[test]
fn tokenize_includes_full_and_words() {
    assert_eq!(tokenize_search_text("Commit & Push"), vec!["commit & push", "commit", "push"]);
    assert_eq!(tokenize_search_text(""), vec![""]);
    assert_eq!(tokenize_search_text("///"), vec!["///"]);
    assert_eq!(tokenize_search_text("a_b-c.d"), vec!["a_b-c.d", "a", "b", "c", "d"]);
}

#[test]
fn score_tiers_name_before_description() {
    let it = item("/recaps ", "Turn session recaps on/off");
    assert_eq!(score_slash_completion_item(&it, "recaps"), Some(0));
    assert_eq!(score_slash_completion_item(&it, "rec"), Some(1));
    assert_eq!(score_slash_completion_item(&it, "caps"), Some(2));
    assert_eq!(score_slash_completion_item(&it, "session"), Some(3));
    assert_eq!(score_slash_completion_item(&it, "sess"), Some(4));
    assert_eq!(score_slash_completion_item(&it, "essio"), Some(5));
    assert!(score_slash_completion_item(&it, "zzz").is_none());
}

#[test]
fn name_match_beats_description_match() {
    let it = item("/recap", "Turn session recaps on/off");
    assert_eq!(score_slash_completion_item(&it, "recap"), Some(0));
}

#[test]
fn fuzzy_rank_merges_description_matches() {
    let prefix_hits = vec![item("/summon", "")];
    let catalog = vec![
        item("/summon", ""),
        item("/recaps", "Show a summary of the session"),
        item("/help", "Show available commands"),
    ];
    let (ranked, scores) = fuzzy_rank_slash_items(&prefix_hits, &catalog, "summ");
    let texts: Vec<&str> = ranked.iter().map(|i| i.text.as_str()).collect();
    assert_eq!(texts, vec!["/summon", "/recaps"]);
    assert_eq!(scores.score_of(&ranked[0]), Some(1));
    assert_eq!(scores.score_of(&ranked[1]), Some(4));
    assert!(scores.score_of(&item("/help", "Show available commands")).is_none());
}

#[test]
fn fuzzy_rank_is_stable_within_tier() {
    let items = vec![item("/mod-b", ""), item("/mod-a", "")];
    let (ranked, _) = fuzzy_rank_slash_items(&items, &[], "mod");
    let texts: Vec<&str> = ranked.iter().map(|i| i.text.as_str()).collect();
    assert_eq!(texts, vec!["/mod-b", "/mod-a"]);
}

#[test]
fn fuzzy_rank_drops_non_matching() {
    let (ranked, _) = fuzzy_rank_slash_items(&[item("/other", "")], &[], "model");
    assert!(ranked.is_empty());
}

#[test]
fn slash_prefix_in_query_handled() {
    let fields = tokenize_search_text("recaps");
    assert_eq!(score_fields(&fields, "/recaps", 0), Some(0));
    assert_eq!(score_fields(&fields, "/rec", 0), Some(1));
}

#[test]
fn ranking_orders_by_score_then_position() {
    let items = vec![
        item("/alpha", "mentions model"),
        item("/model", ""),
        item("/modelx", ""),
        item("/zeta", "a remodeled thing"),
    ];
    let (ranked, scores) = fuzzy_rank_slash_items(&items, &[], "model");
    let texts: Vec<&str> = ranked.iter().map(|i| i.text.as_str()).collect();
    assert_eq!(texts, vec!["/model", "/modelx", "/alpha", "/zeta"]);
    let got: Vec<Option<u32>> = ranked.iter().map(|i| scores.score_of(i)).collect();
    assert_eq!(got, vec![Some(0), Some(1), Some(3), Some(5)]);
}

#[test]
fn catalog_rows_with_seen_token_are_skipped() {
    // The catalog row has the same trimmed token as a completer row, so it does not join,
    // even though its description would match.
    let items = vec![item("/deploy", "")];
    let catalog = vec![item(" /deploy ", "ship it to model land")];
    let (ranked, _) = fuzzy_rank_slash_items(&items, &catalog, "model");
    assert!(ranked.is_empty());
}

#[test]
fn description_word_prefix_and_slash_forms() {
    let it = item("///Config  ", "Edit the Config-File");
    assert_eq!(score_slash_completion_item(&it, "config"), Some(0));
    assert_eq!(score_slash_completion_item(&it, "/conf"), Some(1));
    assert_eq!(score_slash_completion_item(&it, "fil"), Some(4));
    assert_eq!(score_slash_completion_item(&it, "ile"), Some(5));
}
