use mega_dl::proxy::{
    candidates, deduped, parse_proxies, proxy_url_of, Admission, Probing, ProxyPool,
};

fn owned(items: &[&str]) -> Vec<String> {
    items.iter().map(|s| (*s).to_owned()).collect()
}

#[test]
fn a_proxy_without_a_scheme_is_socks5() {
    assert_eq!(proxy_url_of("1.2.3.4:80"), "socks5://1.2.3.4:80");
    assert_eq!(proxy_url_of("socks5://a"), "socks5://a");
    assert_eq!(proxy_url_of("http://a"), "http://a");
    assert_eq!(proxy_url_of("https://a"), "https://a");
    assert_eq!(proxy_url_of("socks4://a"), "socks5://socks4://a");
}

#[test]
fn lists_are_read_line_by_line() {
    let bodies = owned(&[
        "1.1.1.1:1\r\n\n# comment\n  http://b:2  \n #c:3\n",
        "",
        "socks5://d:4",
        " \n\t\n",
    ]);
    assert_eq!(
        parse_proxies(&bodies),
        owned(&["socks5://1.1.1.1:1", "http://b:2", "socks5://#c:3", "socks5://d:4"])
    );
    assert!(parse_proxies(&vec![]).is_empty());
}

#[test]
fn repeats_next_to_each_other_go() {
    assert_eq!(
        deduped(&owned(&["a", "a", "b", "a", "a", "a", "c"])),
        owned(&["a", "b", "a", "c"])
    );
    assert!(deduped(&vec![]).is_empty());
    assert_eq!(deduped(&owned(&["x"])), owned(&["x"]));
}

#[test]
fn candidates_are_what_the_lists_name() {
    let names: Vec<String> = (0..200).map(|i| format!("10.0.0.{i}:1080")).collect();
    let bodies = vec![names[..100].join("\n"), names[100..].join("\r\n")];
    let found = candidates(&bodies);
    let mut sorted = found.clone();
    sorted.sort();
    let mut expected: Vec<String> = names.iter().map(|n| format!("socks5://{n}")).collect();
    assert_ne!(found, expected);
    expected.sort();
    assert_eq!(sorted, expected);
    assert_eq!(candidates(&owned(&["a\na\na"])), owned(&["socks5://a"]));
}

#[test]
fn the_pool_hands_out_in_order() {
    let mut pool = ProxyPool::new();
    assert!(pool.is_empty() && pool.is_low());
    pool.push("a".to_owned());
    pool.extend(owned(&["b", "c"]));
    assert_eq!(pool.len(), 3);
    assert!(pool.is_low());
    pool.extend(owned(&["d", "e"]));
    assert!(!pool.is_low());
    assert_eq!(pool.drain(), owned(&["a", "b", "c", "d", "e"]));
    assert!(pool.is_empty());
    assert!(pool.drain().is_empty());
}

#[test]
fn the_download_is_told_to_start_once() {
    let mut pool = ProxyPool::new();
    let mut probing = Probing::new(4, 3);
    let mut told = Vec::new();
    for i in 0..6 {
        let want = probing.wants_more(&pool);
        assert_eq!(want, i < 4);
        told.push(probing.take_in(&mut pool, format!("p{i}")));
    }
    assert_eq!(
        told,
        vec![
            Admission::Admitted { notify: false },
            Admission::Admitted { notify: false },
            Admission::Admitted { notify: true },
            Admission::Admitted { notify: false },
            Admission::Refused,
            Admission::Refused,
        ]
    );
    assert_eq!(probing.total_good, 4);
    assert_eq!(pool.drain(), owned(&["p0", "p1", "p2", "p3"]));
    // There is room again, and no second notice.
    assert_eq!(probing.take_in(&mut pool, "p".to_owned()), Admission::Admitted { notify: false });
}

#[test]
fn with_no_minimum_the_first_proxy_is_enough() {
    let mut pool = ProxyPool::new();
    let mut probing = Probing::new(4, 0);
    assert_eq!(probing.take_in(&mut pool, "p".to_owned()), Admission::Admitted { notify: true });
}
