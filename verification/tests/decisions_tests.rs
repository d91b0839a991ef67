use link_crawler::crawl::{Crawl, CrawlStep};
use link_crawler::link_tree::IdCounter;
use link_crawler::redirect::{RedirectStep, Redirects};

fn fetch_link(step: CrawlStep) -> String {
    match step {
        CrawlStep::Fetch(link) => link,
        CrawlStep::Finished => panic!("crawl finished early"),
    }
}

#[test]
fn redirects_are_followed_at_most_five_times() {
    let mut r = Redirects::new();
    assert!(matches!(r.decide(200), RedirectStep::Finish));
    assert!(matches!(r.decide(302), RedirectStep::Finish));
    for _ in 0..5 {
        assert!(matches!(r.decide(301), RedirectStep::Follow));
    }
    assert!(matches!(r.decide(307), RedirectStep::GiveUp));
    assert!(matches!(r.decide(308), RedirectStep::GiveUp));
    assert!(matches!(r.decide(404), RedirectStep::Finish));
}

#[test]
fn crawl_visits_depth_first() {
    let mut crawl = Crawl::start(&"root".to_string(), IdCounter::new());
    assert_eq!(fetch_link(crawl.next_step()), "root");
    crawl.deliver(Some(vec!["a".to_string(), "b".to_string()]));
    assert_eq!(fetch_link(crawl.next_step()), "a");
    crawl.deliver(Some(vec!["a1".to_string()]));
    assert_eq!(fetch_link(crawl.next_step()), "a1");
    crawl.deliver(None);
    assert_eq!(fetch_link(crawl.next_step()), "b");
    crawl.deliver(Some(vec![]));
    assert!(matches!(crawl.next_step(), CrawlStep::Finished));
    assert_eq!(
        crawl.root().to_display_string(),
        " root; id:0; parent_id:0;\n          a; id:1; parent_id:0;\n                    a1; id:3; parent_id:1;\n          b; id:2; parent_id:0;\n"
    );
}

#[test]
fn crawl_from_a_used_counter_continues_its_ids() {
    let mut ids = IdCounter::new();
    let _ = link_crawler::link_tree::LinkTreeNode::create(&"other".to_string(), &mut ids);
    let mut crawl = Crawl::start(&"r".to_string(), ids);
    crawl.deliver(Some(vec!["x".to_string()]));
    assert_eq!(crawl.root().get_id(), 1);
    assert_eq!(crawl.root().node_list_immutable()[0].get_id(), 2);
}

#[test]
fn crawl_tree_ids_stay_distinct() {
    let mut crawl = Crawl::start(&"r".to_string(), IdCounter::new());
    let pages: Vec<Option<Vec<String>>> = vec![
        Some(vec!["a".to_string(), "b".to_string(), "c".to_string()]),
        Some(vec!["a".to_string()]),
        None,
        Some(vec!["d".to_string(), "e".to_string()]),
    ];
    for page in pages {
        if matches!(crawl.next_step(), CrawlStep::Finished) {
            break;
        }
        crawl.deliver(page);
    }
    let mut ids: Vec<u32> = crawl.root().breadth_first().iter().map(|e| e.0).collect();
    assert_eq!(ids.len(), 7);
    ids.sort();
    ids.dedup();
    assert_eq!(ids, vec![0, 1, 2, 3, 4, 5, 6]);
    assert_eq!(crawl.next_node_id(), 7);
}
