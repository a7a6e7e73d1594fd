use cheat::score::Score;
use cheat::trie::{Node, Trie};

fn as_f32(s: &Score) -> f32 {
    s.num as f32 / s.den as f32
}

fn create_test_trie() -> Trie {
    let mut trie = Trie::new();
    trie.insert("docker");
    trie.insert("docker-compose");
    trie.insert("docker-swarm");
    trie.insert("kubernetes");
    trie.insert("kubectl");
    trie.insert("rust");
    trie.insert("rust-programming");
    trie.insert("python");
    trie.insert("javascript");
    trie.insert("typescript");
    trie.insert("aws");
    trie.insert("aws-cli");
    trie.insert("nginx");
    trie.insert("apache");
    trie.insert("mysql");
    trie.insert("postgresql");
    trie
}

#[test]
fn test_trie_insert_and_exists() {
    let mut trie = Trie::new();

    trie.insert("test");
    trie.insert("testing");
    trie.insert("tester");

    assert!(trie.contains("test"));
    assert!(trie.contains("testing"));
    assert!(trie.contains("tester"));
    assert!(!trie.contains("tes"));
    assert!(!trie.contains("nonexistent"));
}

#[test]
fn test_prefix_search() {
    let mut trie = create_test_trie();

    let docker_results = trie._search("docker");
    assert!(docker_results.contains(&"docker".to_string()));
    assert!(docker_results.contains(&"docker-compose".to_string()));
    assert!(docker_results.contains(&"docker-swarm".to_string()));
    assert_eq!(docker_results.len(), 3);

    let rust_results = trie._search("rust");
    assert!(rust_results.contains(&"rust".to_string()));
    assert!(rust_results.contains(&"rust-programming".to_string()));
    assert_eq!(rust_results.len(), 2);

    let no_results = trie._search("xyz");
    assert!(no_results.is_empty());
}

#[test]
fn test_fuzzy_search_exact_match() {
    let trie = create_test_trie();

    let results = trie.fuzzy_search("docker");
    assert!(!results.is_empty());

    let exact_match = results.iter().find(|(name, _)| name == "docker");
    assert!(exact_match.is_some());

    let (_, score) = exact_match.unwrap();
    assert_eq!(as_f32(score), 100.0);
}

#[test]
fn test_fuzzy_search_prefix_match() {
    let trie = create_test_trie();

    let results = trie.fuzzy_search("dock");
    assert!(!results.is_empty());

    let docker_matches: Vec<_> = results
        .iter()
        .filter(|(name, _)| name.starts_with("docker"))
        .collect();
    assert_eq!(docker_matches.len(), 3);

    for (_, score) in docker_matches {
        assert!(as_f32(score) > 80.0);
    }
}

#[test]
fn test_fuzzy_search_substring_match() {
    let trie = create_test_trie();

    let results = trie.fuzzy_search("script");

    let js_matches: Vec<_> = results
        .iter()
        .filter(|(name, _)| name.contains("script"))
        .collect();
    assert_eq!(js_matches.len(), 2);

    for (_, score) in js_matches {
        assert!(as_f32(score) > 60.0);
    }
}

#[test]
fn test_fuzzy_search_character_sequence() {
    let trie = create_test_trie();

    let kubectl_results = trie.fuzzy_search("kctl");
    let kubectl_match = kubectl_results.iter().find(|(name, _)| name == "kubectl");

    if let Some((_, score)) = kubectl_match {
        assert!(as_f32(score) > 40.0);
    }
}

#[test]
fn test_fuzzy_search_case_insensitive() {
    let mut trie = Trie::new();
    trie.insert("Docker");
    trie.insert("KUBERNETES");
    trie.insert("PyThOn");

    let results = trie.fuzzy_search("docker");
    let docker_match = results.iter().find(|(name, _)| name == "Docker");
    assert!(docker_match.is_some());

    let results = trie.fuzzy_search("PYTHON");
    let python_match = results.iter().find(|(name, _)| name == "PyThOn");
    assert!(python_match.is_some());
}

#[test]
fn test_fuzzy_search_scoring_order() {
    let trie = create_test_trie();

    let results = trie.fuzzy_search("aws");

    for i in 1..results.len() {
        assert!(as_f32(&results[i - 1].1) >= as_f32(&results[i].1));
    }

    let aws_score = results
        .iter()
        .find(|(name, _)| name == "aws")
        .map(|(_, score)| as_f32(score))
        .unwrap_or(0.0);

    let aws_cli_score = results
        .iter()
        .find(|(name, _)| name == "aws-cli")
        .map(|(_, score)| as_f32(score))
        .unwrap_or(0.0);

    assert!(aws_score > aws_cli_score);
}

#[test]
fn test_edit_distance() {
    let trie = Trie::new();

    assert_eq!(trie.edit_distance("", ""), 0);
    assert_eq!(trie.edit_distance("abc", ""), 3);
    assert_eq!(trie.edit_distance("", "abc"), 3);
    assert_eq!(trie.edit_distance("abc", "abc"), 0);
    assert_eq!(trie.edit_distance("abc", "ab"), 1);
    assert_eq!(trie.edit_distance("abc", "abcd"), 1);
    assert_eq!(trie.edit_distance("abc", "axc"), 1);
    assert_eq!(trie.edit_distance("kitten", "sitting"), 3);
}

#[test]
fn test_fuzzy_match_character_sequence() {
    let trie = Trie::new();

    // A successful match always carries the full ratio of one.
    let full = trie.fuzzy_match("", "").unwrap();
    assert_eq!(full.0, full.1);
    let full = trie.fuzzy_match("abc", "").unwrap();
    assert_eq!(full.0, full.1);
    let full = trie.fuzzy_match("abc", "abc").unwrap();
    assert_eq!(full.0, full.1);
    let full = trie.fuzzy_match("abc", "ac").unwrap();
    assert_eq!(full.0, full.1);
    assert_eq!(trie.fuzzy_match("abc", "xyz"), None);

    let kubectl_match = trie.fuzzy_match("kubectl", "kctl");
    assert!(kubectl_match.is_some());
    let ratio = kubectl_match.unwrap();
    assert!(2 * ratio.0 > ratio.1);

    let docker_match = trie.fuzzy_match("docker-compose", "dkr");
    assert!(docker_match.is_some());
}

#[test]
fn test_collect_all_values() {
    let trie = create_test_trie();
    let mut values = Vec::new();
    Trie::collect_all_values(&trie.root, &mut values);

    assert!(values.contains(&"docker".to_string()));
    assert!(values.contains(&"kubernetes".to_string()));
    assert!(values.contains(&"rust".to_string()));
    assert!(values.len() >= 16);
}

#[test]
fn test_empty_trie_fuzzy_search() {
    let trie = Trie::new();
    let results = trie.fuzzy_search("anything");
    assert!(results.is_empty());
}

#[test]
fn test_single_item_trie() {
    let mut trie = Trie::new();
    trie.insert("single");

    let exact_results = trie.fuzzy_search("single");
    assert_eq!(exact_results.len(), 1);
    assert_eq!(exact_results[0].0, "single");
    assert_eq!(as_f32(&exact_results[0].1), 100.0);

    let prefix_results = trie.fuzzy_search("sin");
    assert_eq!(prefix_results.len(), 1);
    assert!(as_f32(&prefix_results[0].1) > 80.0);

    let no_match = trie.fuzzy_search("xyz");
    assert!(no_match.is_empty());
}

#[test]
fn test_duplicate_insertions() {
    let mut trie = Trie::new();

    trie.insert("duplicate");
    trie.insert("duplicate");
    trie.insert("duplicate");

    assert!(trie.contains("duplicate"));

    let results = trie.fuzzy_search("duplicate");
    assert_eq!(results.len(), 1);
    assert_eq!(results[0].0, "duplicate");
}

#[test]
fn test_special_characters() {
    let mut trie = Trie::new();
    trie.insert("file-name");
    trie.insert("file_name");
    trie.insert("file.name");
    trie.insert("file@name");

    assert!(trie.contains("file-name"));
    assert!(trie.contains("file_name"));
    assert!(trie.contains("file.name"));
    assert!(trie.contains("file@name"));

    let results = trie.fuzzy_search("file");
    assert_eq!(results.len(), 4);
}

// Walks the trie along `s` and returns the node's insertion count there.
fn count_at<'a>(trie: &'a Trie, s: &str) -> usize {
    let mut node: &'a Node = &trie.root;
    for c in s.chars() {
        match node.children.iter().find(|ch| ch.key == Some(c)) {
            Some(child) => node = child,
            None => return 0,
        }
    }
    node.count
}

#[test]
fn duplicate_insertions_keep_one_entry_with_count() {
    let mut trie = Trie::new();
    trie.insert("duplicate");
    trie.insert("duplicate");
    trie.insert("duplicate");

    let mut values = Vec::new();
    Trie::collect_all_values(&trie.root, &mut values);
    assert_eq!(values, vec!["duplicate".to_string()]);
    assert_eq!(count_at(&trie, "duplicate"), 3);

    let results = trie.fuzzy_search("duplicate");
    assert_eq!(results.len(), 1);
    assert_eq!(as_f32(&results[0].1), 100.0);
}

#[test]
fn docker_corpus_scores() {
    let mut trie = Trie::new();
    trie.insert("docker");
    trie.insert("docker-compose");
    trie.insert("docker-swarm");

    let results = trie.fuzzy_search("docker");
    let score_of = |name: &str| -> f32 {
        as_f32(&results.iter().find(|(n, _)| n == name).unwrap().1)
    };
    assert_eq!(score_of("docker"), 100.0);
    assert_eq!(score_of("docker-swarm"), 87.0);
    assert_eq!(score_of("docker-compose"), 86.0);
    // Sorted by score descending.
    assert_eq!(results[0].0, "docker");
    assert_eq!(results[1].0, "docker-swarm");
    assert_eq!(results[2].0, "docker-compose");
}

#[test]
fn subsequence_match_scores_seventy() {
    let mut trie = Trie::new();
    trie.insert("kubectl");

    let results = trie.fuzzy_search("kctl");
    assert_eq!(results.len(), 1);
    assert_eq!(results[0].0, "kubectl");
    assert_eq!(as_f32(&results[0].1), 70.0);
}

#[test]
fn exact_match_is_case_insensitive_and_full() {
    let mut trie = Trie::new();
    trie.insert("ReadMe");

    let results = trie.fuzzy_search("readme");
    assert_eq!(results.len(), 1);
    assert_eq!(as_f32(&results[0].1), 100.0);
}

#[test]
fn prefix_beats_substring_at_equal_length() {
    let mut trie = Trie::new();
    // Same length; one matches "doc" as a prefix, the other only inside.
    trie.insert("doctor");
    trie.insert("redoct");

    let results = trie.fuzzy_search("doc");
    let score_of = |name: &str| -> f32 {
        as_f32(&results.iter().find(|(n, _)| n == name).unwrap().1)
    };
    assert!(score_of("doctor") > score_of("redoct"));
    assert_eq!(score_of("doctor"), 88.5);
}

#[test]
fn substring_score_is_position_and_length_sensitive() {
    let mut trie = Trie::new();
    // "script" occurs in "javascript" at character four, with four extra
    // characters of length: 70 - 0.5*4 - 0.3*4 = 66.8, exactly.
    trie.insert("javascript");

    let results = trie.fuzzy_search("script");
    assert_eq!(results.len(), 1);
    assert_eq!(results[0].1, Score { num: 668, den: 10 });
}

#[test]
fn edit_distance_is_symmetric() {
    let trie = Trie::new();
    let pairs = [("kitten", "sitting"), ("abc", ""), ("flaw", "lawn"), ("a", "b")];
    for (a, b) in pairs {
        assert_eq!(trie.edit_distance(a, b), trie.edit_distance(b, a));
        assert_eq!(trie.edit_distance(a, a), 0);
        let d = trie.edit_distance(a, b);
        assert!(d <= a.chars().count().max(b.chars().count()));
    }
}

#[test]
fn results_sorted_by_score_then_name() {
    let mut trie = Trie::new();
    // "alpha" and "aloha" score the same against "al": equal length
    // prefixes, so the tie breaks on the name.
    trie.insert("alpha");
    trie.insert("aloha");

    let results = trie.fuzzy_search("al");
    assert_eq!(results.len(), 2);
    assert_eq!(as_f32(&results[0].1), as_f32(&results[1].1));
    assert_eq!(results[0].0, "aloha");
    assert_eq!(results[1].0, "alpha");
}

#[test]
fn empty_string_can_be_stored() {
    let mut trie = Trie::new();
    assert!(!trie.contains(""));
    trie.insert("");
    assert!(trie.contains(""));
}

#[test]
fn search_orders_by_count_then_name() {
    let mut trie = Trie::new();
    trie.insert("abd");
    trie.insert("abc");
    trie.insert("abc");
    trie.insert("abe");
    trie.insert("abe");

    let results = trie._search("ab");
    assert_eq!(
        results,
        vec!["abc".to_string(), "abe".to_string(), "abd".to_string()]
    );
}

#[test]
fn collected_values_come_sorted() {
    let mut trie = Trie::new();
    trie.insert("pear");
    trie.insert("apple");
    trie.insert("app");
    trie.insert("banana");

    let mut values = Vec::new();
    Trie::collect_all_values(&trie.root, &mut values);
    assert_eq!(
        values,
        vec![
            "app".to_string(),
            "apple".to_string(),
            "banana".to_string(),
            "pear".to_string()
        ]
    );
}

#[test]
fn node_constructors_start_empty() {
    let n = Node::new();
    assert!(n.key.is_none());
    assert!(n.value.is_none());
    assert_eq!(n.count, 0);
    assert!(n.children.is_empty());

    let k = Node::with_key('x');
    assert_eq!(k.key, Some('x'));
    assert!(k.value.is_none());
    assert_eq!(k.count, 0);
}

#[test]
fn folded_cascade_on_plain_values() {
    // The cascade on already-folded characters, rule by rule.
    let cand: Vec<char> = "kubectl".chars().collect();
    let query: Vec<char> = "kctl".chars().collect();
    let score = cheat::ranking::score_folded(&cand, 7, &query, 4);
    assert_eq!(score, Some(Score { num: 700, den: 10 }));

    let same: Vec<char> = "kubectl".chars().collect();
    let score = cheat::ranking::score_folded(&cand, 7, &same, 7);
    assert_eq!(score, Some(Score { num: 1000, den: 10 }));

    let prefix: Vec<char> = "kube".chars().collect();
    let score = cheat::ranking::score_folded(&cand, 7, &prefix, 4);
    assert_eq!(score, Some(Score { num: 885, den: 10 }));

    let unrelated: Vec<char> = "zzz".chars().collect();
    let score = cheat::ranking::score_folded(&cand, 7, &unrelated, 3);
    assert_eq!(score, None);
}

#[test]
fn distance_fallback_scores_and_cutoff() {
    let mut trie = Trie::new();
    // "dog" vs query "fog": no prefix, substring or subsequence match;
    // distance 1 of length 3 gives 30 * (1 - 1/3) = 20.
    trie.insert("dog");
    let results = trie.fuzzy_search("fog");
    assert_eq!(results.len(), 1);
    assert_eq!(as_f32(&results[0].1), 20.0);

    // "cat" vs "dog": distance 3 of length 3 is past the 0.6 cutoff.
    let mut trie = Trie::new();
    trie.insert("cat");
    assert!(trie.fuzzy_search("dog").is_empty());
}
