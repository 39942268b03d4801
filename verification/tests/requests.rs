use webserver::bytes::{contains, copy_range, find, matches_at, same_bytes, starts_with};
use webserver::request::{carries_body, find_byte, request_complete, request_target};
use webserver::resolver::{candidate, classify, is_reserved, Probe, Resolution};
use webserver::admission::ClientId;
use webserver::routing::{cached_source, error_page, file_validation, route, Config, Route, Source};

fn config(caching: bool, streaming: bool) -> Config {
    Config {
        caching,
        streaming,
        blacklist: false,
        cache_num_max: 2,
        requests_per_second_limit: 25,
        admin_ip: Vec::new(),
    }
}

fn file(path: &[u8]) -> Probe {
    Probe { canonical: Some(path.to_vec()), is_dir: false }
}

#[test]
fn target_is_second_field_without_slash() {
    assert_eq!(
        request_target(b"GET /index.html HTTP/1.1\r\nHost: x\r\n\r\n"),
        Some(b"index.html".to_vec())
    );
    assert_eq!(request_target(b"GET /a"), Some(b"a".to_vec()));
    assert_eq!(request_target(b"GET / HTTP/1.1\r\n\r\n"), Some(Vec::new()));
    assert_eq!(request_target(b"GET /a/b c d\nnext line"), Some(b"a/b".to_vec()));
}

#[test]
fn target_is_absent_without_second_field() {
    assert_eq!(request_target(b""), None);
    assert_eq!(request_target(b"GET"), None);
    assert_eq!(request_target(b"GET\n/index.html HTTP/1.1"), None);
    assert_eq!(request_target(b"GET  HTTP/1.1"), None);
    assert_eq!(request_target(b"GET "), None);
}

#[test]
fn header_block_ends_at_blank_line() {
    assert!(!request_complete(b"GET / HTTP/1.1\r\n"));
    assert!(!request_complete(b"GET / HTTP/1.1\n\n"));
    assert!(request_complete(b"GET / HTTP/1.1\r\n\r\n"));
    assert!(request_complete(b"GET / HTTP/1.1\r\nA: b\r\n\r\nrest"));
}

#[test]
fn body_is_what_follows_the_blank_line() {
    assert!(!carries_body(b"GET / HTTP/1.1\r\n\r\n"));
    assert!(!carries_body(b"GET / HTTP/1.1\r\n"));
    assert!(carries_body(b"POST / HTTP/1.1\r\n\r\nx"));
    assert!(carries_body(b"POST / HTTP/1.1\r\n\r\n\r\n\r\n"));
}

#[test]
fn byte_search() {
    assert_eq!(find(b"abcabc", b"bc"), Some(1));
    assert_eq!(find(b"abcabc", b"cb"), None);
    assert_eq!(find(b"abc", b""), Some(0));
    assert_eq!(find(b"", b"a"), None);
    assert!(contains(b"xxADMINxx", b"ADMIN"));
    assert!(!contains(b"xxADMIxx", b"ADMIN"));
    assert!(starts_with(b"/srv/files/a", b"/srv/files"));
    assert!(!starts_with(b"/srv/file", b"/srv/files"));
    assert!(matches_at(b"hello", b"llo", 2));
    assert!(!matches_at(b"hello", b"llo", 3));
    assert!(same_bytes(b"ab", b"ab"));
    assert!(!same_bytes(b"ab", b"abc"));
    assert_eq!(copy_range(b"hello", 1, 3), b"el".to_vec());
    assert_eq!(find_byte(b"a b", 32, 0), 1);
    assert_eq!(find_byte(b"a b", 32, 2), 3);
}

#[test]
fn candidate_joins_root_and_target() {
    assert_eq!(candidate(b"/srv/files", b"index.html"), b"/srv/files/index.html".to_vec());
    assert_eq!(candidate(b"/srv/files", b"../../etc/passwd"), b"/srv/files/../../etc/passwd".to_vec());
}

#[test]
fn traversal_is_forbidden() {
    let message = b"GET /../../etc/passwd HTTP/1.1\r\n\r\n";
    let target = request_target(message).unwrap();
    assert_eq!(target, b"../../etc/passwd".to_vec());
    assert_eq!(classify(&target, b"/srv/files", file(b"/etc/passwd"), false), Resolution::Forbidden);
    assert_eq!(classify(&target, b"/srv/files", file(b"/etc/passwd"), true), Resolution::Forbidden);
    for caching in [false, true] {
        for streaming in [false, true] {
            let r = file_validation(
                message,
                b"/srv/files",
                file(b"/etc/passwd"),
                false,
                &config(caching, streaming),
            );
            assert_eq!(r, Route::ErrorPage(403));
        }
    }
}

#[test]
fn admin_target_needs_an_administrator() {
    let message = b"GET /ADMIN/secret.html HTTP/1.1\r\n\r\n";
    let path = b"/srv/files/ADMIN/secret.html";
    assert!(is_reserved(b"ADMIN/secret.html"));
    assert!(!is_reserved(b"admin/secret.html"));
    let r = file_validation(message, b"/srv/files", file(path), false, &config(false, false));
    assert_eq!(r, Route::ErrorPage(401));
    let r = file_validation(message, b"/srv/files", file(path), true, &config(false, false));
    assert_eq!(r, Route::Buffer(path.to_vec()));
}

#[test]
fn missing_or_directory_is_not_found() {
    let message = b"GET /nothing HTTP/1.1\r\n\r\n";
    let gone = Probe { canonical: None, is_dir: false };
    assert_eq!(
        file_validation(message, b"/srv/files", gone, true, &config(true, true)),
        Route::ErrorPage(404)
    );
    let dir = Probe { canonical: Some(b"/srv/files/sub".to_vec()), is_dir: true };
    assert_eq!(
        file_validation(b"GET /sub HTTP/1.1\r\n\r\n", b"/srv/files", dir, false, &config(false, false)),
        Route::ErrorPage(404)
    );
    let outside_dir = Probe { canonical: Some(b"/etc".to_vec()), is_dir: true };
    assert_eq!(classify(b"../../etc", b"/srv/files", outside_dir, false), Resolution::NotFound);
}

#[test]
fn forbidden_comes_before_unauthorized() {
    assert_eq!(
        classify(b"../ADMIN/x", b"/srv/files", file(b"/srv/ADMIN/x"), false),
        Resolution::Forbidden
    );
}

#[test]
fn delivery_follows_the_settings() {
    let path = b"/srv/files/index.html";
    let message = b"GET /index.html HTTP/1.1\r\n\r\n";
    let root = b"/srv/files";
    assert_eq!(
        file_validation(message, root, file(path), false, &config(true, true)),
        Route::Cache(path.to_vec())
    );
    assert_eq!(
        file_validation(message, root, file(path), false, &config(true, false)),
        Route::Cache(path.to_vec())
    );
    assert_eq!(
        file_validation(message, root, file(path), false, &config(false, true)),
        Route::Stream(path.to_vec())
    );
    assert_eq!(
        file_validation(message, root, file(path), false, &config(false, false)),
        Route::Buffer(path.to_vec())
    );
    assert_eq!(route(Resolution::Found(path.to_vec()), &config(false, true)), Route::Stream(path.to_vec()));
    assert_eq!(route(Resolution::Unauthorized, &config(true, true)), Route::ErrorPage(401));
}

#[test]
fn request_without_target_is_malformed() {
    assert_eq!(
        file_validation(b"GET\r\n\r\n", b"/srv/files", file(b"/srv/files/a"), true, &config(false, false)),
        Route::Malformed
    );
}

#[test]
fn cached_body_is_used_for_requests_without_body() {
    let plain = b"GET /a HTTP/1.1\r\n\r\n";
    let with_body = b"GET /a HTTP/1.1\r\n\r\nhello";
    assert_eq!(cached_source(plain, Some(b"alpha".to_vec())), Source::Memory(b"alpha".to_vec()));
    assert_eq!(cached_source(plain, Some(Vec::new())), Source::Memory(Vec::new()));
    assert_eq!(cached_source(plain, None), Source::Disk);
    assert_eq!(cached_source(with_body, Some(b"alpha".to_vec())), Source::Disk);
}

#[test]
fn error_pages_lie_under_their_status() {
    assert_eq!(error_page(404), b"./files/404".to_vec());
    assert_eq!(error_page(403), b"./files/403".to_vec());
    assert_eq!(error_page(401), b"./files/401".to_vec());
}

#[test]
fn administrators_are_the_configured_addresses() {
    let admin = ClientId { v6: false, addr: 0x7f00_0001, port: 8888, flow: 0, scope: 0 };
    let mut c = config(false, false);
    assert!(!c.is_admin(admin));
    c.admin_ip.push(admin);
    assert!(c.is_admin(admin));
    assert!(!c.is_admin(ClientId { port: 8889, ..admin }));
    assert!(!c.is_admin(ClientId { v6: true, ..admin }));
}
