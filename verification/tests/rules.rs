use resolved_nftset::config::{invalid_rule_lines, is_domain_name, matching_rules, RuleSet};
use resolved_nftset::dispatch::updates_for;
use resolved_nftset::varlink_monitor::Resolved;

#[test]
fn set_names_take_family_suffixes() {
    let rs = RuleSet::from_text("resolved_route", "vpn", "google.com\n");
    assert_eq!(rs.table_name, "resolved_route");
    assert_eq!(rs.set_name_v4, "vpn_v4");
    assert_eq!(rs.set_name_v6, "vpn_v6");
}

#[test]
fn pattern_matches_itself_and_subdomains() {
    let rs = RuleSet::from_text("t", "vpn", "google.com\nyoutube.com\n");
    assert!(rs.matches("google.com"));
    assert!(rs.matches("google.com."));
    assert!(rs.matches("www.google.com"));
    assert!(rs.matches("mail.google.com"));
    assert!(rs.matches("a.b.youtube.com"));
}

#[test]
fn matching_respects_label_boundaries() {
    let rs = RuleSet::from_text("t", "vpn", "google.com\n");
    assert!(!rs.matches("notgoogle.com"));
    assert!(!rs.matches("com"));
    assert!(!rs.matches("google.org"));
}

#[test]
fn match_must_end_on_a_label_boundary() {
    let pattern = "a".repeat(45);
    let rs = RuleSet::from_text("t", "vpn", &pattern);
    // one label "x-" followed by 45 'a': its wire bytes end with the pattern's
    let host = format!("x-{}", pattern);
    assert!(!rs.matches(&host));
    assert!(rs.matches(&format!("x.{}", pattern)));
}

#[test]
fn shorter_pattern_found_behind_unaligned_longer_one() {
    let long = format!("{}.com", "a".repeat(45));
    let rs = RuleSet::from_text("t", "vpn", &format!("{}\ncom\n", long));
    let host = format!("x-{}", long);
    assert!(rs.matches(&host));
    let only_long = RuleSet::from_text("t", "vpn", &long);
    assert!(!only_long.matches(&host));
}

#[test]
fn matching_ignores_letter_case() {
    let rs = RuleSet::from_text("t", "vpn", "Google.COM\n");
    assert!(rs.matches("WWW.google.com"));
    assert!(rs.matches("www.GOOGLE.com"));
}

#[test]
fn comments_blank_lines_and_spaces_are_ignored() {
    let text = "# vpn names\n\n   \n  google.com  \r\n\t# youtube.com\n";
    let rs = RuleSet::from_text("t", "vpn", text);
    assert!(rs.matches("www.google.com"));
    assert!(!rs.matches("youtube.com"));
    assert!(!rs.matches("vpn"));
}

#[test]
fn unicode_white_space_is_trimmed() {
    let rs = RuleSet::from_text("t", "vpn", "\u{a0}\u{3000}example.org\u{2003}\n");
    assert!(rs.matches("www.example.org"));
}

#[test]
fn invalid_lines_are_skipped() {
    let rs = RuleSet::from_text("t", "vpn", "bad..name\nw@w.fr\nexample.org");
    assert!(rs.matches("example.org"));
    assert!(!rs.matches("w@w.fr"));
    assert!(!rs.matches("fr"));
}

#[test]
fn empty_rule_text_matches_nothing() {
    let rs = RuleSet::from_text("t", "vpn", "");
    assert!(!rs.matches("google.com"));
    assert!(!rs.matches("."));
    assert!(!rs.matches(""));
}

#[test]
fn root_pattern_matches_nothing() {
    let rs = RuleSet::from_text("t", "vpn", ".\n");
    assert!(!rs.matches("google.com"));
}

#[test]
fn invalid_host_name_does_not_match() {
    let rs = RuleSet::from_text("t", "vpn", "google.com\n");
    assert!(!rs.matches("www..google.com"));
    assert!(!rs.matches("w@w.google.com"));
}

#[test]
fn matching_rules_lists_matching_positions_in_order() {
    let rules = vec![
        RuleSet::from_text("t", "a", "google.com\n"),
        RuleSet::from_text("t", "b", "example.org\n"),
        RuleSet::from_text("u", "c", "com\n"),
    ];
    assert_eq!(matching_rules(&rules, "www.google.com"), vec![0, 2]);
    assert_eq!(matching_rules(&rules, "example.org"), vec![1]);
    assert_eq!(matching_rules(&rules, "example.net"), Vec::<usize>::new());
}

#[test]
fn updates_target_the_sets_of_matching_rules() {
    let rules = vec![
        RuleSet::from_text("route", "vpn", "google.com\n"),
        RuleSet::from_text("route", "tor", "onion.example\n"),
    ];
    let resolved = Resolved {
        hostname: "mail.google.com".to_string(),
        addrs_v4: vec![[142, 250, 0, 1]],
        addrs_v6: vec![],
    };
    let updates = updates_for(&rules, &resolved);
    assert_eq!(updates.len(), 1);
    assert_eq!(updates[0].rule, 0);
    assert_eq!(updates[0].acks, 1);
    let req = updates[0].request.as_ref().unwrap();
    let expected = rules[0].add_request(&[[142, 250, 0, 1]], &[]).unwrap();
    assert_eq!(req, &expected);
    // the IPv4 message names the table and the IPv4 set
    assert_eq!(&req[44..50], b"route\0");
    assert_eq!(&req[56..63], b"vpn_v4\0");
    assert_eq!(&req[req.len() - 24..req.len() - 20], &[142, 250, 0, 1]);
}

#[test]
fn invalid_rule_lines_are_listed_trimmed_in_order() {
    let text = "# comment\n  bad..name  \nexample.org\n\nw@w.fr\n.\n";
    let invalid: Vec<String> = invalid_rule_lines(text)
        .into_iter()
        .map(|line| line.into_iter().collect())
        .collect();
    assert_eq!(invalid, vec!["bad..name".to_string(), "w@w.fr".to_string()]);
    assert!(invalid_rule_lines("example.org\n# w@w\n").is_empty());
}

#[test]
fn domain_names_are_recognised() {
    assert!(is_domain_name("www.Example.org"));
    assert!(is_domain_name("example.org."));
    assert!(is_domain_name("."));
    assert!(!is_domain_name("www..example.org"));
    assert!(!is_domain_name("w@w.fr"));
    assert!(!is_domain_name("caf\u{e9}.fr"));
}
