use lxs_registry::catalog::{categories, detail, docs_bundle, list_lxs, lxs_detail, sort_scanned};
use lxs_registry::latest::{find_latest, latest_by_name};
use lxs_registry::model::{LookupError, LxsDocs, LxsManifest};

fn manifest(name: &str, version: &str, category: &str, summary: &str) -> LxsManifest {
    LxsManifest {
        name: name.to_string(),
        version: version.to_string(),
        category: category.to_string(),
        summary: summary.to_string(),
        ..Default::default()
    }
}

fn sample() -> Vec<LxsManifest> {
    let mut storage_old = manifest("storage", "1.0.4", "Media", "Photos & media");
    storage_old.domain = "files".to_string();
    let mut storage_new = manifest("storage", "1.0.5", "Media", "Photos & media: uploads");
    storage_new.domain = "files".to_string();
    storage_new.status = "unverified".to_string();
    storage_new.publisher = "stuff8".to_string();
    storage_new.runtime.base = "self-contained-static".to_string();
    storage_new.targets = vec!["linux/amd64".to_string()];
    storage_new.provenance.source = "https://github.com/getecosphere/storage.git".to_string();
    storage_new.provenance.commit = "abc123".to_string();
    storage_new.release = vec!["notes".to_string()];
    vec![
        storage_old,
        manifest("chat", "2.0.0", "Communication", "Realtime chat"),
        storage_new,
        manifest("mail", "0.3.0", "Communication", "Outgoing mail"),
        manifest("notify", "1.1.0", "Communication", "Push notifications"),
        manifest("auth", "v1.2", "", "Login and sessions"),
        manifest("chat", "1.9.9", "Communication", "Old chat"),
    ]
}

#[test]
fn latest_version_of_each_name() {
    let ms = sample();
    let mut latest = latest_by_name(&ms);
    latest.sort();
    assert_eq!(latest, vec![1, 2, 3, 4, 5]);
}

#[test]
fn first_of_equally_new_versions_wins() {
    let ms = vec![
        manifest("a", "1.0", "", ""),
        manifest("a", "1.0.0", "", ""),
        manifest("a", "0.9", "", ""),
    ];
    assert_eq!(latest_by_name(&ms), vec![0]);
    match find_latest(&ms, "a") {
        Ok(i) => assert_eq!(i, 0),
        Err(_) => panic!("a is listed"),
    }
}

#[test]
fn later_newer_version_replaces_earlier() {
    let ms = vec![
        manifest("a", "1.0.0", "", ""),
        manifest("b", "1.0.0", "", ""),
        manifest("a", "1.10.0", "", ""),
        manifest("a", "1.9.0", "", ""),
    ];
    let mut latest = latest_by_name(&ms);
    latest.sort();
    assert_eq!(latest, vec![1, 2]);
}

#[test]
fn empty_registry_has_nothing() {
    let ms: Vec<LxsManifest> = Vec::new();
    assert!(latest_by_name(&ms).is_empty());
    assert!(categories(&ms).is_empty());
    assert!(list_lxs(&ms, &Vec::new(), "", "").is_empty());
}

#[test]
fn category_counts_by_count_then_name() {
    let ms = sample();
    let cats = categories(&ms);
    let got: Vec<(String, usize)> = cats.iter().map(|c| (c.name.clone(), c.count)).collect();
    assert_eq!(
        got,
        vec![
            ("Communication".to_string(), 3),
            ("Media".to_string(), 1),
            ("Uncategorized".to_string(), 1),
        ]
    );
}

#[test]
fn category_counts_add_up_to_unfiltered_list() {
    let ms = sample();
    let docs = vec![false; ms.len()];
    let total: usize = categories(&ms).iter().map(|c| c.count).sum();
    assert_eq!(total, list_lxs(&ms, &docs, "", "").len());
    assert_eq!(total, 5);
}

#[test]
fn category_count_matches_filtered_list() {
    let ms = sample();
    let docs = vec![false; ms.len()];
    for c in categories(&ms) {
        if c.name != "Uncategorized" {
            assert_eq!(list_lxs(&ms, &docs, &c.name, "").len(), c.count);
        }
    }
}

#[test]
fn categories_differing_in_case_are_counted_apart_but_filtered_together() {
    let ms = vec![manifest("a", "1", "Media", ""), manifest("b", "1", "media", "")];
    let cats = categories(&ms);
    let got: Vec<(String, usize)> = cats.iter().map(|c| (c.name.clone(), c.count)).collect();
    assert_eq!(got, vec![("Media".to_string(), 1), ("media".to_string(), 1)]);
    assert_eq!(list_lxs(&ms, &vec![false, false], "Media", "").len(), 2);
}

#[test]
fn unfiltered_list_is_sorted_by_name() {
    let ms = sample();
    let docs = vec![false, false, true, false, false, false, false];
    let cards = list_lxs(&ms, &docs, "", "");
    let names: Vec<&str> = cards.iter().map(|c| c.name.as_str()).collect();
    assert_eq!(names, vec!["auth", "chat", "mail", "notify", "storage"]);
    let storage = &cards[4];
    assert_eq!(storage.version, "1.0.5");
    assert_eq!(storage.category, "Media");
    assert_eq!(storage.status, "unverified");
    assert_eq!(storage.publisher, "stuff8");
    assert_eq!(storage.summary, "Photos & media: uploads");
    assert_eq!(storage.runtime, "self-contained-static");
    assert_eq!(storage.targets, vec!["linux/amd64".to_string()]);
    assert_eq!(storage.source, "https://github.com/getecosphere/storage.git");
    assert_eq!(storage.commit, "abc123");
    assert!(storage.docs_available);
    assert_eq!(cards[0].category, "Uncategorized");
    assert_eq!(cards[0].version, "v1.2");
    assert!(!cards[0].docs_available);
    assert_eq!(cards[1].version, "2.0.0");
}

#[test]
fn filter_by_category_ignores_ascii_case() {
    let ms = sample();
    let docs = vec![false; ms.len()];
    let cards = list_lxs(&ms, &docs, "communication", "");
    let names: Vec<&str> = cards.iter().map(|c| c.name.as_str()).collect();
    assert_eq!(names, vec!["chat", "mail", "notify"]);
    assert!(list_lxs(&ms, &docs, "Uncategorized", "").is_empty());
    assert!(list_lxs(&ms, &docs, "Unknown", "").is_empty());
}

#[test]
fn query_matches_name_summary_or_domain_ignoring_case() {
    let ms = sample();
    let docs = vec![false; ms.len()];
    let by_name: Vec<String> = list_lxs(&ms, &docs, "", "CHA").iter().map(|c| c.name.clone()).collect();
    assert_eq!(by_name, vec!["chat"]);
    let by_summary: Vec<String> = list_lxs(&ms, &docs, "", "push").iter().map(|c| c.name.clone()).collect();
    assert_eq!(by_summary, vec!["notify"]);
    let by_domain: Vec<String> = list_lxs(&ms, &docs, "", "FILES").iter().map(|c| c.name.clone()).collect();
    assert_eq!(by_domain, vec!["storage"]);
    // "Old chat" is the summary of an older version only
    assert!(list_lxs(&ms, &docs, "", "old").is_empty());
    let both: Vec<String> = list_lxs(&ms, &docs, "Communication", "mail").iter().map(|c| c.name.clone()).collect();
    assert_eq!(both, vec!["mail"]);
    assert!(list_lxs(&ms, &docs, "Media", "mail").is_empty());
}

#[test]
fn detail_of_latest_version() {
    let ms = sample();
    let i = match find_latest(&ms, "storage") {
        Ok(i) => i,
        Err(_) => panic!("storage is listed"),
    };
    assert_eq!(i, 2);
    let docs = docs_bundle(
        vec!["api.md".to_string(), "README.md".to_string(), "gotchas.md".to_string()],
        true,
        "# storage".to_string(),
        "# api".to_string(),
        "#!/bin/sh".to_string(),
        "# changes".to_string(),
        "# gotchas".to_string(),
    );
    let d = detail(ms, i, Some(docs));
    assert_eq!(d.name, "storage");
    assert_eq!(d.version, "1.0.5");
    assert_eq!(d.domain, "files");
    assert_eq!(d.versions, vec!["1.0.4".to_string(), "1.0.5".to_string()]);
    assert_eq!(d.release, vec!["notes".to_string()]);
    assert_eq!(d.provenance.commit, "abc123");
    assert_eq!(d.runtime.base, "self-contained-static");
    let docs: LxsDocs = d.docs.expect("docs were given");
    assert_eq!(docs.files, vec!["README.md", "api.md", "gotchas.md"]);
    assert!(docs.has_openapi);
    assert_eq!(docs.index, "# storage");
    assert_eq!(docs.gotchas, "# gotchas");
}

#[test]
fn detail_version_is_the_card_version() {
    let ms = sample();
    let docs = vec![false; ms.len()];
    let cards = list_lxs(&ms, &docs, "", "");
    for c in cards {
        let i = find_latest(&ms, &c.name).ok().expect("listed");
        assert_eq!(ms[i].version, c.version);
    }
}

#[test]
fn detail_lists_all_versions_in_order() {
    let ms = sample();
    let i = find_latest(&ms, "chat").ok().expect("listed");
    let d = detail(ms, i, None);
    assert_eq!(d.version, "2.0.0");
    assert_eq!(d.versions, vec!["2.0.0".to_string(), "1.9.9".to_string()]);
    assert!(d.docs.is_none());
}

#[test]
fn unknown_name_is_not_found() {
    let ms = sample();
    match find_latest(&ms, "zzz") {
        Ok(_) => panic!("zzz is not listed"),
        Err(e) => {
            assert_eq!(e.message(), "LXS zzz not found");
            match e {
                LookupError::NotFound(n) => assert_eq!(n, "zzz"),
            }
        }
    }
    assert!(find_latest(&ms, "Storage").is_err());
}

#[test]
fn scan_order_is_by_name_dash_version() {
    let mut ms = vec![
        manifest("ab", "1.0", "", ""),
        manifest("a", "2.0", "", ""),
        manifest("a", "10.0", "", ""),
        manifest("b", "0.1", "", ""),
    ];
    sort_scanned(&mut ms);
    let keys: Vec<String> = ms.iter().map(|m| format!("{}-{}", m.name, m.version)).collect();
    assert_eq!(keys, vec!["a-10.0", "a-2.0", "ab-1.0", "b-0.1"]);
    let mut sorted = keys.clone();
    sorted.sort();
    assert_eq!(keys, sorted);
}

#[test]
fn docs_files_are_sorted() {
    let d = docs_bundle(
        vec!["openapi.json".to_string(), "README.md".to_string(), "api.md".to_string()],
        false,
        String::new(),
        String::new(),
        String::new(),
        String::new(),
        String::new(),
    );
    assert_eq!(d.files, vec!["README.md", "api.md", "openapi.json"]);
    assert!(!d.has_openapi);
}

fn docs_with_readme(text: &str) -> LxsDocs {
    docs_bundle(
        vec!["README.md".to_string()],
        false,
        text.to_string(),
        String::new(),
        String::new(),
        String::new(),
        String::new(),
    )
}

#[test]
fn detail_by_name_of_latest_version() {
    let ms = sample();
    let docs: Vec<Option<LxsDocs>> =
        (0..ms.len()).map(|i| if i == 2 { Some(docs_with_readme("# storage")) } else { None }).collect();
    match lxs_detail(ms, "storage", docs) {
        Ok(d) => {
            assert_eq!(d.version, "1.0.5");
            assert_eq!(d.versions, vec!["1.0.4".to_string(), "1.0.5".to_string()]);
            assert_eq!(d.docs.expect("docs of the latest version").index, "# storage");
        }
        Err(_) => panic!("storage is listed"),
    }
}

#[test]
fn detail_by_unknown_name_is_not_found() {
    let ms = sample();
    let docs: Vec<Option<LxsDocs>> = (0..ms.len()).map(|_| None).collect();
    match lxs_detail(ms, "nope", docs) {
        Ok(_) => panic!("nope is not listed"),
        Err(e) => assert_eq!(e.message(), "LXS nope not found"),
    }
}

#[test]
fn detail_agrees_with_card_on_docs() {
    let ms = sample();
    let flags: Vec<bool> = (0..ms.len()).map(|i| i == 2 || i == 1).collect();
    let cards = list_lxs(&ms, &flags, "", "");
    for c in cards {
        let ms = sample();
        let docs: Vec<Option<LxsDocs>> =
            flags.iter().map(|f| if *f { Some(docs_with_readme("x")) } else { None }).collect();
        let d = lxs_detail(ms, &c.name, docs).ok().expect("listed");
        assert_eq!(d.version, c.version);
        assert_eq!(d.summary, c.summary);
        assert_eq!(d.docs.is_some(), c.docs_available);
    }
}

#[test]
fn default_manifest_is_empty() {
    let m = LxsManifest::default();
    assert!(m.name.is_empty() && m.version.is_empty() && m.targets.is_empty());
    assert_eq!(m.contract.version, 0);
    assert!(m.contract.env.required.is_empty() && m.contract.network.inbound.is_empty());
    assert_eq!(m.contract.resources.startup_seconds, 0);
    assert!(m.runtime.base.is_empty() && m.runtime.dependencies.is_empty());
    assert!(m.provenance.source.is_empty() && m.provenance.built_at.is_empty());
}
