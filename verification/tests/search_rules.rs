use tektite::fuzzy::{fuzzy_file_rows, fuzzy_score};
use tektite::search::{
    fts_match_query,
    normalize_snippet, rank_search_results, search_request, title_from_name_or_path, FtsHit,
    FuzzyFileRow, HeadingSearchRow, RankSource,
};

fn fuzzy_row(path: &str, name: &str, score: i64) -> FuzzyFileRow {
    FuzzyFileRow { path: path.to_string(), name: name.to_string(), score }
}

fn fts_hit(path: &str, title: &str, snippet: &str, bm25: i64) -> FtsHit {
    FtsHit { path: path.to_string(), title: title.to_string(), snippet: snippet.to_string(), bm25 }
}

fn heading_row(path: &str, level: u8, text: &str) -> HeadingSearchRow {
    HeadingSearchRow {
        file_id: "id".to_string(),
        file_path: path.to_string(),
        level,
        text: text.to_string(),
    }
}

#[test]
fn request_is_trimmed_and_expanded() {
    assert_eq!(search_request("  atlas ", 5), Some(("atlas".to_string(), 15)));
    assert_eq!(search_request("   ", 5), None);
    assert_eq!(search_request("x", 0), None);
    assert_eq!(search_request("x", usize::MAX), Some(("x".to_string(), usize::MAX)));
}

#[test]
fn titles_and_snippets_fall_back_to_the_path() {
    assert_eq!(title_from_name_or_path("  Title ", "a/b.md"), "Title");
    assert_eq!(title_from_name_or_path("", "a/b.md"), "b");
    assert_eq!(normalize_snippet("  text ", "T", "a.md"), "text");
    assert_eq!(normalize_snippet(" ", "", "dir/note.md"), "note \u{b7} dir/note.md");
}

#[test]
fn filename_matches_rank_above_text_and_heading_matches() {
    let fuzzy = vec![fuzzy_row("notes/project-atlas.md", "project-atlas", 1200)];
    let fts = vec![
        fts_hit("notes/weekly.md", "", "Discussed __MATCH__Atlas__ENDMATCH__", 150),
        fts_hit("notes/project-atlas.md", "Project Atlas", "Launch plans", 200),
    ];
    let headings = vec![heading_row("ideas.md", 1, "Atlas heading")];
    let results = rank_search_results("project atlas", 5, &fuzzy, &fts, &headings);
    let paths: Vec<_> = results.iter().map(|r| r.path.as_str()).collect();
    assert_eq!(paths, vec!["notes/project-atlas.md", "notes/weekly.md", "ideas.md"]);
    assert_eq!(results[0].score, 6200);
    assert_eq!(results[0].source, RankSource::Filename(1200));
    assert_eq!(results[0].snippet, "Filename match \u{b7} notes/project-atlas.md");
    assert_eq!(results[1].score, 3150);
    assert_eq!(results[2].score, 1999);
    assert_eq!(results[2].snippet, "Heading match \u{b7} # Atlas heading");
    assert_eq!(results[2].title, "ideas");
}

#[test]
fn title_bonus_rewards_exact_and_contained_titles() {
    let fts = vec![
        fts_hit("a.md", "Atlas", "s", 0),
        fts_hit("b.md", "The ATLAS plan", "s", 0),
        fts_hit("c.md", "Other", "s", 0),
    ];
    let results = rank_search_results("atlas", 10, &vec![], &fts, &vec![]);
    let scores: Vec<_> = results.iter().map(|r| (r.path.as_str(), r.score)).collect();
    assert_eq!(scores, vec![("a.md", 4200), ("b.md", 3500), ("c.md", 3000)]);
}

#[test]
fn equal_scores_sort_by_path_and_limit_applies() {
    let headings = vec![heading_row("b.md", 2, "x"), heading_row("a.md", 2, "x"), heading_row("c.md", 2, "x")];
    let results = rank_search_results("x", 2, &vec![], &vec![], &headings);
    let paths: Vec<_> = results.iter().map(|r| r.path.as_str()).collect();
    assert_eq!(paths, vec!["a.md", "b.md"]);
}

#[test]
fn fuzzy_score_rewards_prefix_and_consecutive_matches() {
    assert_eq!(fuzzy_score("", "anything"), Some(0));
    assert_eq!(fuzzy_score("xyz", "abc"), None);
    // prefix + substring + two consecutive pairs, spread 2
    assert_eq!(fuzzy_score("abc", "abcdef"), Some(100 + 500 + 1000 + 100 - 2));
    // not a substring: matches at 0, 2, 4, spread 4
    assert_eq!(fuzzy_score("ace", "abcde"), Some(100 - 4));
    // case-insensitive
    assert_eq!(fuzzy_score("ABC", "abc"), fuzzy_score("abc", "abc"));
}

#[test]
fn fuzzy_rows_are_scored_sorted_and_limited() {
    let paths = vec!["a/zzz.md".to_string(), "b/abc.md".to_string(), "c/axbxc.md".to_string()];
    let rows = fuzzy_file_rows("abc", &paths, 5);
    let names: Vec<_> = rows.iter().map(|r| r.name.as_str()).collect();
    assert_eq!(names, vec!["abc", "axbxc"]);
    let blank = fuzzy_file_rows("  ", &paths, 2);
    assert_eq!(blank.len(), 2);
    assert_eq!(blank[0].name, "zzz");
    assert_eq!(blank[0].score, 0);
}

#[test]
fn full_text_query_quotes_each_word_as_a_prefix() {
    assert_eq!(fts_match_query("atlas"), "\"atlas\"*");
    assert_eq!(fts_match_query("  project   atlas \n"), "\"project\"* \"atlas\"*");
    assert_eq!(fts_match_query("say \"hi\""), "\"say\"* \"\"\"hi\"\"\"*");
    assert_eq!(fts_match_query("   "), "");
}
