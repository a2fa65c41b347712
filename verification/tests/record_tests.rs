use recursive_scraper::urls::Record;

fn url_of(s: &str) -> String {
    url::Url::parse(s).unwrap().to_string()
}

#[test]
fn record_serialize_test() {
    let mut record = Record::default();
    record.check_add_url(url_of("https://www.rust-lang.org")).unwrap();
    record.check_add_url(url_of("https://sites.duke.edu/intersections/")).unwrap();
    record.insert_scrape(0);
    record.insert_fail(2);
    record.insert_redirect(3, 4);
    let toml = record.serialize();
    println!("{toml}");
}

#[test]
fn check_add_url_twice_returns_same_id() {
    let mut record = Record::default();
    assert_eq!(record.check_add_url("http://h/a".to_string()), Ok(0));
    assert_eq!(record.check_add_url("http://h/a".to_string()), Err(0));
    assert_eq!(record.check_add_url("http://h/b".to_string()), Ok(1));
    assert_eq!(record.check_add_url("http://h/b".to_string()), Err(1));
    assert_eq!(record.check_add_url("http://h/a".to_string()), Err(0));
    assert_eq!(record.urls.len(), 2);
}

#[test]
fn check_final_url_records_redirect() {
    let mut record = Record::default();
    assert_eq!(record.check_add_url("http://h/a".to_string()), Ok(0));
    assert_eq!(record.check_final_url(0, "http://h/b".to_string()), Some(1));
    assert_eq!(record.urls, vec!["http://h/a".to_string(), "http://h/b".to_string()]);
    assert_eq!(record.scrapes, vec![1]);
    assert_eq!(record.redirects, vec![(0, 1)]);
}

#[test]
fn check_final_url_drops_already_scraped_target() {
    let mut record = Record::default();
    assert_eq!(record.check_add_url("http://h/a".to_string()), Ok(0));
    assert_eq!(record.check_add_url("http://h/b".to_string()), Ok(1));
    record.insert_scrape(1);
    // a redirects to b, which is already scraped: the caller must abandon.
    assert_eq!(record.check_final_url(0, "http://h/b".to_string()), None);
    assert_eq!(record.scrapes, vec![1]);
    assert!(record.redirects.is_empty());
    // a response that lands on its own URL is simply scraped.
    assert_eq!(record.check_final_url(0, "http://h/a".to_string()), Some(0));
    assert_eq!(record.scrapes, vec![1, 0]);
    assert!(record.redirects.is_empty());
}

#[test]
fn insert_redirect_overwrites_same_source() {
    let mut record = Record::default();
    record.insert_redirect(0, 1);
    record.insert_redirect(0, 2);
    assert_eq!(record.redirects, vec![(0, 2)]);
    record.insert_redirect(3, 1);
    assert_eq!(record.redirects, vec![(0, 2), (3, 1)]);
}

#[test]
fn insert_scrape_and_fail_ignore_repeats() {
    let mut record = Record::default();
    record.insert_scrape(4);
    record.insert_scrape(4);
    assert_eq!(record.scrapes, vec![4]);
    assert!(record.insert_fail(7));
    assert!(!record.insert_fail(7));
    assert_eq!(record.fails, vec![7]);
}

#[test]
fn serialize_empty_record() {
    let record = Record::default();
    assert_eq!(record.serialize(), "scrapes = []\nfails = []\n\n[urls]\n\n[redirects]\n");
}

#[test]
fn serialize_full_record() {
    let mut record = Record::default();
    record.check_add_url("http://h/a".to_string()).unwrap();
    record.check_add_url("http://h/b".to_string()).unwrap();
    record.insert_scrape(0);
    record.insert_scrape(1);
    record.insert_fail(1);
    record.insert_redirect(0, 1);
    assert_eq!(
        record.serialize(),
        "scrapes = [0, 1]\nfails = [1]\n\n[urls]\n\"http://h/a\" = 0\n\"http://h/b\" = 1\n\n[redirects]\n\"0\" = 1\n"
    );
}

#[test]
fn serialize_escapes_quotes_and_backslashes() {
    let mut record = Record::default();
    record.check_add_url("http://h/\"q\\z".to_string()).unwrap();
    assert_eq!(
        record.serialize(),
        "scrapes = []\nfails = []\n\n[urls]\n\"http://h/\\\"q\\\\z\" = 0\n\n[redirects]\n"
    );
}

#[test]
fn serialize_escapes_control_characters() {
    let mut record = Record::default();
    record.check_add_url("http://h/a\u{1}b\u{7f}".to_string()).unwrap();
    let snapshot = record.serialize();
    assert_eq!(
        snapshot,
        "scrapes = []\nfails = []\n\n[urls]\n\"http://h/a\\u0001b\\u007F\" = 0\n\n[redirects]\n"
    );
    let parsed: toml::Value = toml::from_str(&snapshot).unwrap();
    let urls = parsed.get("urls").unwrap().as_table().unwrap();
    assert_eq!(urls.get("http://h/a\u{1}b\u{7f}").unwrap().as_integer(), Some(0));
}

fn rebuild_from_toml(value: &toml::Value) -> Record {
    let mut rebuilt = Record::default();
    let urls = value.get("urls").unwrap().as_table().unwrap();
    let mut pairs: Vec<(String, usize)> = urls
        .iter()
        .map(|(k, v)| (k.clone(), v.as_integer().unwrap() as usize))
        .collect();
    pairs.sort_by_key(|p| p.1);
    for (u, id) in pairs {
        assert_eq!(rebuilt.check_add_url(u), Ok(id));
    }
    for v in value.get("scrapes").unwrap().as_array().unwrap() {
        rebuilt.insert_scrape(v.as_integer().unwrap() as usize);
    }
    for v in value.get("fails").unwrap().as_array().unwrap() {
        rebuilt.insert_fail(v.as_integer().unwrap() as usize);
    }
    for (k, v) in value.get("redirects").unwrap().as_table().unwrap().iter() {
        rebuilt.insert_redirect(k.parse::<usize>().unwrap(), v.as_integer().unwrap() as usize);
    }
    rebuilt
}

#[test]
fn record_serialize_round_trip() {
    let mut record = Record::default();
    record.check_add_url("http://h/".to_string()).unwrap();
    record.check_add_url("http://h/a".to_string()).unwrap();
    record.check_add_url("http://h/b.png".to_string()).unwrap();
    record.insert_scrape(0);
    record.insert_scrape(2);
    record.insert_fail(1);
    record.insert_redirect(1, 2);
    let first = record.serialize();
    let parsed: toml::Value = toml::from_str(&first).unwrap();
    let rebuilt = rebuild_from_toml(&parsed);
    let second = rebuilt.serialize();
    assert_eq!(first, second);
    let reparsed: toml::Value = toml::from_str(&second).unwrap();
    assert_eq!(parsed, reparsed);
}

#[test]
fn serialized_snapshot_parses_as_toml() {
    let mut record = Record::default();
    record.check_add_url(url_of("https://www.rust-lang.org")).unwrap();
    record.insert_scrape(0);
    let snapshot = record.serialize();
    let parsed: toml::Value = toml::from_str(&snapshot).unwrap();
    let urls = parsed.get("urls").unwrap().as_table().unwrap();
    assert_eq!(
        urls.get("https://www.rust-lang.org/").unwrap().as_integer(),
        Some(0)
    );
    let scrapes = parsed.get("scrapes").unwrap().as_array().unwrap();
    assert_eq!(scrapes.len(), 1);
    assert_eq!(scrapes[0].as_integer(), Some(0));
}

#[test]
fn serialize_multi_digit_ids() {
    let mut record = Record::default();
    for i in 0..12 {
        record.check_add_url(format!("http://h/p{i}")).unwrap();
    }
    record.insert_scrape(10);
    record.insert_scrape(11);
    record.insert_redirect(11, 10);
    let snapshot = record.serialize();
    let parsed: toml::Value = toml::from_str(&snapshot).unwrap();
    let urls = parsed.get("urls").unwrap().as_table().unwrap();
    assert_eq!(urls.get("http://h/p10").unwrap().as_integer(), Some(10));
    assert_eq!(urls.get("http://h/p11").unwrap().as_integer(), Some(11));
    let scrapes = parsed.get("scrapes").unwrap().as_array().unwrap();
    assert_eq!(scrapes[0].as_integer(), Some(10));
    assert_eq!(scrapes[1].as_integer(), Some(11));
    let redirects = parsed.get("redirects").unwrap().as_table().unwrap();
    assert_eq!(redirects.get("11").unwrap().as_integer(), Some(10));
}

#[test]
fn lens_reports_cardinalities() {
    let mut record = Record::default();
    record.check_add_url("http://h/a".to_string()).unwrap();
    record.check_add_url("http://h/b".to_string()).unwrap();
    record.insert_scrape(0);
    record.insert_fail(0);
    record.insert_redirect(0, 1);
    assert_eq!(record.lens(), (2, 1, 1, 1));
}
