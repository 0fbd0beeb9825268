use repo_analyser::github_links::{extract_count_from_link, github_repo_span, mentions_github};

fn repo_of(url: &str) -> Option<&str> {
    github_repo_span(url).map(|(start, end)| &url[start..end])
}

#[test]
fn the_last_page_of_a_link_header_is_the_count() {
    let link = "<https://api.github.com/repositories/1/commits?per_page=1&page=2>; rel=\"next\", \
                <https://api.github.com/repositories/1/commits?per_page=1&page=1234>; rel=\"last\"";
    assert_eq!(extract_count_from_link(Some(link)), 1234);
    assert_eq!(extract_count_from_link(Some("page=5>")), 5);
    assert_eq!(extract_count_from_link(Some("page=1>page=22>; rel")), 22);
    assert_eq!(extract_count_from_link(Some("page=007>")), 7);
    assert_eq!(extract_count_from_link(Some("page=+7>")), 7);
    assert_eq!(extract_count_from_link(Some("page=0>")), 0);
    assert_eq!(extract_count_from_link(Some("page=4294967295>")), 4294967295);
    assert_eq!(extract_count_from_link(Some("\u{e9}page=31>\u{e9}")), 31);
    assert_eq!(extract_count_from_link(Some("page=9&x=1>page=")), 1);
}

#[test]
fn a_header_without_a_count_stands_for_one() {
    assert_eq!(extract_count_from_link(None), 1);
    assert_eq!(extract_count_from_link(Some("")), 1);
    assert_eq!(extract_count_from_link(Some("<https://api.github.com/x>; rel=\"last\"")), 1);
    assert_eq!(extract_count_from_link(Some("page=12")), 1);
    assert_eq!(extract_count_from_link(Some("page=>")), 1);
    assert_eq!(extract_count_from_link(Some("page=+>")), 1);
    assert_eq!(extract_count_from_link(Some("page=abc>")), 1);
    assert_eq!(extract_count_from_link(Some("page=12a>")), 1);
    assert_eq!(extract_count_from_link(Some("page=-3>")), 1);
    assert_eq!(extract_count_from_link(Some("page= 3>")), 1);
    assert_eq!(extract_count_from_link(Some("page=3&per_page=1>")), 1);
    assert_eq!(extract_count_from_link(Some("page=4294967296>")), 1);
    assert_eq!(extract_count_from_link(Some("page=99999999999999999999999>")), 1);
}

#[test]
fn the_count_agrees_with_the_search_and_parse_of_strings() {
    let samples = [
        "page=5>", "page=", ">page=5", "xpage=10>y", "page=1>page=>", "page=++1>", "page=1+>",
        "per_page=1&page=77>; rel=\"last\"", "page=\u{e9}>", "pagepage==3>", "page=3>>",
    ];
    for link in samples {
        let expected = match link.rfind("page=") {
            Some(pos) => {
                let sub = &link[pos + 5..];
                match sub.find('>') {
                    Some(end) => sub[..end].parse().unwrap_or(1),
                    None => 1,
                }
            }
            None => 1u32,
        };
        assert_eq!(extract_count_from_link(Some(link)), expected);
    }
}

#[test]
fn the_repository_stands_after_the_host() {
    assert_eq!(github_repo_span("https://github.com/owner/repo"), Some((19, 29)));
    assert_eq!(repo_of("https://github.com/owner/repo"), Some("owner/repo"));
    assert_eq!(repo_of("https://github.com/owner/repo/"), Some("owner/repo"));
    assert_eq!(repo_of("https://github.com/owner/repo///"), Some("owner/repo"));
    assert_eq!(repo_of("github.com/a"), Some("a"));
    assert_eq!(repo_of("github.com/a/github.com/b"), Some("a/"));
    assert_eq!(repo_of("github.com/github.com/b"), Some(""));
    assert_eq!(repo_of("https://github.com/\u{e9}t\u{e9}/repo"), Some("\u{e9}t\u{e9}/repo"));
}

#[test]
fn an_address_without_the_host_names_no_repository() {
    assert_eq!(repo_of("https://gitlab.com/owner/repo"), None);
    assert_eq!(repo_of("https://github.com/"), None);
    assert_eq!(repo_of("https://github.com"), None);
    assert_eq!(repo_of(""), None);
    assert_eq!(repo_of("///"), None);
}

#[test]
fn the_span_agrees_with_trimming_and_splitting() {
    let samples = [
        "https://github.com/owner/repo", "https://github.com/owner/repo//", "github.com/x/github.com/",
        "a github.com/b github.com/c github.com/d", "github.com//",
    ];
    for url in samples {
        let parts: Vec<&str> = url.trim_end_matches('/').split("github.com/").collect();
        assert_eq!(repo_of(url), parts.get(1).copied());
    }
}

#[test]
fn github_is_found_anywhere_in_an_address() {
    assert!(mentions_github("https://github.com/owner/repo"));
    assert!(mentions_github("github.com"));
    assert!(mentions_github("xgithub.comx"));
    assert!(!mentions_github("https://gitlab.com/owner/repo"));
    assert!(!mentions_github("github.co"));
    assert!(!mentions_github(""));
}
