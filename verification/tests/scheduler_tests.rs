use recursive_scraper::config::SchedulerConfig;
use recursive_scraper::file::{links_from_html, process_headers, ContentType, FileContent, FileType};
use recursive_scraper::middle::{status_is_success, Conclusion};
use recursive_scraper::pattern::Pattern;
use recursive_scraper::ring::Ring;
use recursive_scraper::schedule::{Persist, Scheduler};

/// Feeds one successful HTML response for `url_id` through the pipeline:
/// final URL as given, the body parsed for links, the conclusion queued and
/// drained. Returns the persist action.
fn complete_html(s: &mut Scheduler, url_id: usize, final_url: &str, body: &str) -> Persist {
    let fid = s.process_response(url_id, final_url.to_string()).unwrap();
    assert_eq!(
        process_headers(&ContentType::Value("text/html".to_string())),
        FileType::Html
    );
    let (text, hrefs, imgs) = links_from_html(final_url, body.to_string());
    assert!(s.rec.is_scraped(fid));
    s.push_conclusion(Conclusion { url_id: fid, content: FileContent::Html(text, hrefs, imgs) });
    s.process_one_conclusion().unwrap()
}

#[test]
fn single_html_page_no_links() {
    let mut s = Scheduler::new(SchedulerConfig::default(), 0);
    s.add_pending("http://s/a".to_string());
    let (id, url) = s.check_spawn_request(500).unwrap();
    assert_eq!(id, 0);
    assert_eq!(url, "http://s/a");
    match complete_html(&mut s, 0, "http://s/a", "<html></html>") {
        Persist::File { url_id, path, bytes } => {
            assert_eq!(url_id, 0);
            assert_eq!(path, "html/0.html");
            assert_eq!(bytes, "<html></html>".to_string().into_bytes());
        },
        _ => panic!("expected a file to persist"),
    }
    assert!(s.process_one_conclusion().is_none());
    assert_eq!(s.rec.urls, vec!["http://s/a".to_string()]);
    assert_eq!(s.rec.scrapes, vec![0]);
    assert!(s.rec.fails.is_empty());
    assert!(s.rec.redirects.is_empty());
    assert!(!s.state.has_more_tasks());
}

#[test]
fn redirect_collapse() {
    let mut s = Scheduler::new(SchedulerConfig::default(), 0);
    s.add_pending("http://s/a".to_string());
    let (id, _url) = s.check_spawn_request(500).unwrap();
    assert_eq!(id, 0);
    // The response's final URL differs: the redirect target becomes the
    // authoritative identity.
    match complete_html(&mut s, 0, "http://s/b", "<html></html>") {
        Persist::File { url_id, path, .. } => {
            assert_eq!(url_id, 1);
            assert_eq!(path, "html/1.html");
        },
        _ => panic!("expected a file to persist"),
    }
    assert_eq!(s.rec.urls, vec!["http://s/a".to_string(), "http://s/b".to_string()]);
    assert_eq!(s.rec.scrapes, vec![1]);
    assert_eq!(s.rec.redirects, vec![(0, 1)]);
    assert!(s.rec.fails.is_empty());
}

#[test]
fn redirect_target_not_scraped_twice() {
    let mut s = Scheduler::new(SchedulerConfig::default(), 0);
    s.add_pending("http://s/a".to_string());
    s.add_pending("http://s/c".to_string());
    let (first, _) = s.check_spawn_request(500).unwrap();
    assert_eq!(first, 0);
    // a redirects to b; b is interned as id 2 and scraped under it.
    complete_html(&mut s, 0, "http://s/b", "<html></html>");
    assert_eq!(s.rec.scrapes, vec![2]);
    assert_eq!(s.rec.redirects, vec![(0, 2)]);
    let (second, _) = s.check_spawn_request(1000).unwrap();
    assert_eq!(second, 1);
    // c redirects to b too: its target was already scraped, so the
    // response is dropped and nothing is scheduled for processing.
    assert_eq!(s.process_response(1, "http://s/b".to_string()), None);
    assert_eq!(s.rec.scrapes, vec![2]);
    assert_eq!(s.rec.redirects, vec![(0, 2)]);
    assert!(!s.state.has_more_tasks());
}

#[test]
fn blacklist_and_filter() {
    let filter = Pattern::compile("^http://s/(ok|skip)$").unwrap();
    let blacklist = Pattern::compile("skip").unwrap();
    let cfg = SchedulerConfig::default().filter(filter).blacklist(blacklist);
    let mut s = Scheduler::new(cfg, 0);
    s.add_pending("http://s/".to_string());
    let (id, _) = s.check_spawn_request(500).unwrap();
    assert_eq!(id, 0);
    let body = "<a href=\"/ok\"></a><a href=\"/skip\"></a><a href=\"/out\"></a>";
    complete_html(&mut s, 0, "http://s/", body);
    // All three are interned, but only /ok is ever scheduled.
    assert_eq!(
        s.rec.urls,
        vec![
            "http://s/".to_string(),
            "http://s/ok".to_string(),
            "http://s/skip".to_string(),
            "http://s/out".to_string(),
        ]
    );
    assert_eq!(s.state.pending, vec![1]);
    let (next, _) = s.check_spawn_request(1000).unwrap();
    assert_eq!(next, 1);
    complete_html(&mut s, 1, "http://s/ok", "<html></html>");
    assert!(s.check_spawn_request(5000).is_none());
    assert!(!s.state.has_more_tasks());
    assert_eq!(s.rec.scrapes, vec![0, 1]);
}

#[test]
fn ring_promotion() {
    let filter = Pattern::compile("^http://s/(ok)?$").unwrap();
    let cfg = SchedulerConfig::default().filter(filter).with_number_of_rings(1);
    let mut s = Scheduler::new(cfg, 0);
    s.add_pending("http://s/".to_string());
    let (id, _) = s.check_spawn_request(500).unwrap();
    assert_eq!(id, 0);
    let body = "<a href=\"/ok\"></a><a href=\"/out\"></a>";
    complete_html(&mut s, 0, "http://s/", body);
    // /ok passes the filter, /out is deferred to the ring's next wave.
    assert_eq!(s.state.pending, vec![1]);
    let (next, _) = s.check_spawn_request(1000).unwrap();
    assert_eq!(next, 1);
    complete_html(&mut s, 1, "http://s/ok", "<html></html>");
    assert!(!s.state.has_more_tasks());
    // Everything drained: the ring promotes its wave.
    assert!(s.increment_ring());
    assert_eq!(s.state.pending, vec![2]);
    let (out, _) = s.check_spawn_request(1500).unwrap();
    assert_eq!(out, 2);
    complete_html(&mut s, 2, "http://s/out", "<html></html>");
    assert!(!s.state.has_more_tasks());
    // The single wave is consumed: no further promotion.
    assert!(!s.increment_ring());
    assert_eq!(s.rec.scrapes, vec![0, 1, 2]);
}

#[test]
fn retry_then_succeed() {
    let mut s = Scheduler::new(SchedulerConfig::default(), 0);
    s.add_pending("http://s/a".to_string());
    let (id, _) = s.check_spawn_request(500).unwrap();
    // First fetch returns a 500: the response's status fails the process
    // task, and the id gets its one retry.
    let fid = s.process_response(id, "http://s/a".to_string()).unwrap();
    assert!(!status_is_success(500));
    s.fail_process(fid);
    assert_eq!(s.rec.fails, vec![0]);
    assert_eq!(s.state.pending, vec![0]);
    // Second fetch returns 200.
    let (again, _) = s.check_spawn_request(1000).unwrap();
    assert_eq!(again, 0);
    match complete_html(&mut s, 0, "http://s/a", "<html></html>") {
        Persist::File { path, .. } => assert_eq!(path, "html/0.html"),
        _ => panic!("expected a file to persist"),
    }
    assert_eq!(s.rec.scrapes, vec![0]);
    assert_eq!(s.rec.fails, vec![0]);
    assert!(!s.state.has_more_tasks());
}

#[test]
fn retry_then_give_up() {
    let mut s = Scheduler::new(SchedulerConfig::default(), 0);
    s.add_pending("http://s/a".to_string());
    let (id, _) = s.check_spawn_request(500).unwrap();
    // Transport error: no response at all.
    s.fail_request(id);
    assert_eq!(s.rec.fails, vec![0]);
    assert_eq!(s.state.pending, vec![0]);
    let (again, _) = s.check_spawn_request(1000).unwrap();
    assert_eq!(again, 0);
    // The retry fails too: the second failure is a no-op, no reschedule.
    s.fail_request(again);
    assert_eq!(s.rec.fails, vec![0]);
    assert!(s.state.pending.is_empty());
    assert!(s.rec.scrapes.is_empty());
    assert!(s.check_spawn_request(5000).is_none());
    assert!(!s.state.has_more_tasks());
}

#[test]
fn rate_limit() {
    let cfg = SchedulerConfig::default().delay(200);
    let mut s = Scheduler::new(cfg, 0);
    for i in 0..5 {
        s.add_pending(format!("http://s/p{i}"));
    }
    let mut times: Vec<u64> = Vec::new();
    let mut now: u64 = 0;
    while times.len() < 5 {
        if s.check_spawn_request(now).is_some() {
            times.push(now);
        }
        now += 50;
    }
    for k in 1..times.len() {
        assert!(times[k] - times[k - 1] >= 200);
    }
}

#[test]
fn images_scheduled_unfiltered_unless_disregarded() {
    let filter = Pattern::compile("^http://s/$").unwrap();
    let cfg = SchedulerConfig::default().filter(filter);
    let mut s = Scheduler::new(cfg, 0);
    s.add_pending("http://s/".to_string());
    s.check_spawn_request(500).unwrap();
    // The image does not match the filter, yet it is scheduled.
    complete_html(&mut s, 0, "http://s/", "<img src=\"http://elsewhere/pic.png\">");
    assert_eq!(s.state.pending, vec![1]);
    assert_eq!(s.rec.urls[1], "http://elsewhere/pic.png");

    // With non-HTML resources disregarded, images are not scheduled at all.
    let filter2 = Pattern::compile("^http://s/$").unwrap();
    let cfg2 = SchedulerConfig::default().filter(filter2).disregard_other();
    let mut s2 = Scheduler::new(cfg2, 0);
    s2.add_pending("http://s/".to_string());
    s2.check_spawn_request(500).unwrap();
    complete_html(&mut s2, 0, "http://s/", "<img src=\"http://elsewhere/pic.png\">");
    assert!(s2.state.pending.is_empty());
    assert_eq!(s2.rec.urls.len(), 1);
}

#[test]
fn other_resource_persisted_under_extension() {
    let mut s = Scheduler::new(SchedulerConfig::default(), 0);
    s.add_pending("http://s/doc.pdf".to_string());
    s.check_spawn_request(500).unwrap();
    let fid = s.process_response(0, "http://s/doc.pdf".to_string()).unwrap();
    assert_eq!(
        process_headers(&ContentType::Value("application/pdf".to_string())),
        FileType::Other
    );
    let extension = recursive_scraper::file::derive_extension("http://s/doc.pdf");
    assert_eq!(extension, ".pdf");
    s.push_conclusion(Conclusion {
        url_id: fid,
        content: FileContent::Other(extension, vec![1, 2, 3]),
    });
    match s.process_one_conclusion().unwrap() {
        Persist::File { url_id, path, bytes } => {
            assert_eq!(url_id, 0);
            assert_eq!(path, "other/0.pdf");
            assert_eq!(bytes, vec![1, 2, 3]);
        },
        _ => panic!("expected a file to persist"),
    }
}

#[test]
fn disregard_flags_suppress_persistence() {
    let cfg = SchedulerConfig::default().disregard_html();
    let mut s = Scheduler::new(cfg, 0);
    s.add_pending("http://s/a".to_string());
    s.check_spawn_request(500).unwrap();
    match complete_html(&mut s, 0, "http://s/a", "<html></html>") {
        Persist::Nothing => {},
        _ => panic!("disregarded HTML must not be persisted"),
    }

    let cfg2 = SchedulerConfig::default().disregard_other();
    let mut s2 = Scheduler::new(cfg2, 0);
    s2.add_pending("http://s/doc.pdf".to_string());
    s2.check_spawn_request(500).unwrap();
    let fid = s2.process_response(0, "http://s/doc.pdf".to_string()).unwrap();
    s2.push_conclusion(Conclusion {
        url_id: fid,
        content: FileContent::Other(".pdf".to_string(), vec![9]),
    });
    match s2.process_one_conclusion().unwrap() {
        Persist::Nothing => {},
        _ => panic!("disregarded non-HTML must not be persisted"),
    }
}

#[test]
fn ring_increment_budget() {
    let mut ring = Ring::new(2);
    ring.push_next(5);
    let first = ring.increment().unwrap();
    assert_eq!(first, vec![5]);
    assert!(ring.next.is_empty());
    ring.push_next(6);
    ring.push_next(7);
    let second = ring.increment().unwrap();
    assert_eq!(second, vec![6, 7]);
    assert!(ring.increment().is_none());
    assert!(ring.increment().is_none());
}

#[test]
fn abandoned_tasks_release_their_slots() {
    let mut s = Scheduler::new(SchedulerConfig::default(), 0);
    s.add_pending("http://s/a".to_string());
    s.check_spawn_request(500).unwrap();
    assert_eq!(s.state.lens(), (0, 1, 0, 0));
    // The request task's result was lost (it panicked): the slot is
    // released so the run can still drain.
    s.abandon_request();
    assert_eq!(s.state.lens(), (0, 0, 0, 0));
    assert!(!s.state.has_more_tasks());
}

#[test]
fn snapshot_due_every_eighth_change() {
    let mut s = Scheduler::new(SchedulerConfig::default(), 0);
    for i in 0..8 {
        s.add_pending(format!("http://s/p{i}"));
        let due = s.note_changes();
        assert_eq!(due, i == 7);
    }
    // No record change: no snapshot due.
    assert!(!s.note_changes());
}

#[test]
fn scheduler_state_queries() {
    let mut s = Scheduler::new(SchedulerConfig::default(), 0);
    assert!(!s.state.has_processing());
    assert!(!s.state.has_more_tasks());
    s.add_pending("http://s/a".to_string());
    assert!(!s.state.has_processing());
    assert!(s.state.has_more_tasks());
    assert_eq!(s.state.lens(), (1, 0, 0, 0));
    s.check_spawn_request(500).unwrap();
    assert!(s.state.has_processing());
    assert_eq!(s.state.lens(), (0, 1, 0, 0));
}

#[test]
fn delaying_requests_follows_elapsed_time() {
    let mut s = Scheduler::new(SchedulerConfig::default(), 1000);
    assert!(s.delaying_requests(1000));
    assert!(s.delaying_requests(1499));
    assert!(!s.delaying_requests(1500));
    s.reset_time(2000);
    assert!(s.delaying_requests(2499));
    assert!(!s.delaying_requests(2500));
}
