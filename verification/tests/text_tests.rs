//! Text helpers: decimal rendering, hexadecimal, search helpers and the
//! content-type map.

use dafs::shell::{get_command_list, get_messaging_commands};
use dafs::text::{bytes_to_hex, str_contains, to_lowercase, u64_to_string};
use dafs::web::get_content_type;

#[test]
fn decimal_rendering() {
    assert_eq!(u64_to_string(0), "0");
    assert_eq!(u64_to_string(7), "7");
    assert_eq!(u64_to_string(12345), "12345");
    assert_eq!(u64_to_string(u64::MAX), "18446744073709551615");
}

#[test]
fn hex_rendering() {
    assert_eq!(bytes_to_hex(&vec![]), "");
    assert_eq!(bytes_to_hex(&vec![0x00, 0xde, 0xad, 0x0f]), "00dead0f");
}

#[test]
fn lowercase_and_contains_do_real_work() {
    assert_eq!(to_lowercase("HeLLo"), "hello");
    assert!(str_contains("hello world", "lo wo"));
    assert!(!str_contains("hello", "world"));
    assert!(str_contains("anything", ""));
}

#[test]
fn content_types_by_extension() {
    assert_eq!(get_content_type("app/main.js"), "application/javascript");
    assert_eq!(get_content_type("style.css"), "text/css");
    assert_eq!(get_content_type("index.html"), "text/html");
    assert_eq!(get_content_type("data.json"), "application/json");
    assert_eq!(get_content_type("img.png"), "image/png");
    assert_eq!(get_content_type("img.jpg"), "image/jpeg");
    assert_eq!(get_content_type("img.jpeg"), "image/jpeg");
    assert_eq!(get_content_type("icon.svg"), "image/svg+xml");
    assert_eq!(get_content_type("fav.ico"), "image/x-icon");
    assert_eq!(get_content_type("font.woff"), "font/woff");
    assert_eq!(get_content_type("font.woff2"), "font/woff2");
    assert_eq!(get_content_type("font.ttf"), "font/ttf");
    assert_eq!(get_content_type("README"), "text/plain");
    assert_eq!(get_content_type("archive.tar.gz"), "text/plain");
}

#[test]
fn shell_command_lists() {
    let commands = get_command_list();
    assert_eq!(commands.len(), 67);
    assert!(commands.contains(&"upload"));
    assert!(commands.contains(&"whoami"));
    let messaging = get_messaging_commands();
    assert_eq!(messaging.len(), 22);
    assert!(messaging.contains(&"send <peer> <message>"));
}
