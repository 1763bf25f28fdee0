use shopify_app::{AccessMode, Credentials, ShopifyApp};

fn pairs(items: &[(&str, &str)]) -> Vec<(String, String)> {
    items.iter().map(|(k, v)| (k.to_string(), v.to_string())).collect()
}

fn demo_app(secret: &str) -> ShopifyApp {
    ShopifyApp::new(
        Credentials { api_key: "abc123".to_string(), secret: secret.to_string() },
        vec!["read_products".to_string(), "write_orders".to_string()],
        AccessMode::Offline,
    )
}

#[test]
fn shop_url_accepts_valid_identifiers() {
    assert!(ShopifyApp::shopify_url("my-shop.myshopify.com"));
    assert!(ShopifyApp::shopify_url("a1.myshopify.com"));
    assert!(ShopifyApp::shopify_url("a.myshopify.com"));
    assert!(ShopifyApp::shopify_url("A-1-b.myshopify.com"));
    assert!(ShopifyApp::shopify_url("0shop.myshopify.com"));
}

#[test]
fn shop_url_rejects_invalid_identifiers() {
    assert!(!ShopifyApp::shopify_url(""));
    assert!(!ShopifyApp::shopify_url("my_shop.myshopify.com"));
    assert!(!ShopifyApp::shopify_url("myshopify.com"));
    assert!(!ShopifyApp::shopify_url(".myshopify.com"));
    assert!(!ShopifyApp::shopify_url("-shop.myshopify.com"));
    assert!(!ShopifyApp::shopify_url("shop.myshopify.com/admin"));
    assert!(!ShopifyApp::shopify_url("shop.myshopify.com?x=1"));
    assert!(!ShopifyApp::shopify_url("user@shop.myshopify.com"));
    assert!(!ShopifyApp::shopify_url("sub.shop.myshopify.com"));
    assert!(!ShopifyApp::shopify_url("my shop.myshopify.com"));
    assert!(!ShopifyApp::shopify_url("shop.myshopify.comx"));
    assert!(!ShopifyApp::shopify_url("shop.myshopify.co"));
    assert!(!ShopifyApp::shopify_url("shóp.myshopify.com"));
}

#[test]
fn nonce_is_url_safe_and_fresh() {
    let a = ShopifyApp::new_nonce();
    let b = ShopifyApp::new_nonce();
    assert_eq!(a.len(), 32);
    assert_eq!(b.len(), 32);
    assert!(!a.contains('+') && !a.contains('/'));
    assert!(!b.contains('+') && !b.contains('/'));
    assert_ne!(a, b);
}

#[test]
fn auth_uri_has_exact_shape() {
    let app = demo_app("hush");
    let uri = app.new_auth_uri("example.myshopify.com", "https://app.example.com/auth", "xyz");
    assert_eq!(
        uri,
        "https://example.myshopify.com/admin/oauth/authorize?client_id=abc123&scope=read_products,write_orders&redirect_uri=https://app.example.com/auth&state=xyz&grant_options[]=offline"
    );
}

#[test]
fn auth_uri_online_mode_and_single_scope() {
    let app = ShopifyApp::new(
        Credentials { api_key: "k".to_string(), secret: "s".to_string() },
        vec!["read_orders".to_string()],
        AccessMode::Online,
    );
    let uri = app.new_auth_uri("a.myshopify.com", "https://x/y", "n1");
    assert_eq!(
        uri,
        "https://a.myshopify.com/admin/oauth/authorize?client_id=k&scope=read_orders&redirect_uri=https://x/y&state=n1&grant_options[]=online"
    );
}

#[test]
fn hmac_hex_known_answer() {
    let app = demo_app("hush");
    let once = app.generate_hmac_hex(b"a=1&b=2");
    let again = app.generate_hmac_hex(b"a=1&b=2");
    assert_eq!(once, "ef1537cfd31c3c21d86962bf28ec3637c4defa233ca9aa1be8ddf8e7b3c4470a");
    assert_eq!(once, again);
}

#[test]
fn hmac_base64_known_answer() {
    let app = demo_app("hush");
    assert_eq!(
        app.generate_hmac_base64(b"a=1&b=2"),
        "7xU3z9McPCHYaWK/KOw2N8Te+iM8qaob6N3457PERwo="
    );
}

#[test]
fn hmac_bytes_match_hex_form() {
    let app = demo_app("hush");
    let raw = app.generate_hmac_bytes(b"a=1&b=2");
    assert_eq!(raw.len(), 32);
    assert_eq!(
        hex::encode(&raw),
        "ef1537cfd31c3c21d86962bf28ec3637c4defa233ca9aa1be8ddf8e7b3c4470a"
    );
}

#[test]
fn valid_hmac_round_trip() {
    let app = demo_app("secret");
    let tag = app.generate_hmac_hex(b"code=abc&shop=example.myshopify.com&timestamp=1337");
    let params = pairs(&[
        ("shop", "example.myshopify.com"),
        ("timestamp", "1337"),
        ("code", "abc"),
        ("hmac", &tag),
    ]);
    assert!(app.valid_hmac(&params));
}

#[test]
fn valid_hmac_rejects_flipped_value() {
    let app = demo_app("secret");
    let tag = app.generate_hmac_hex(b"code=abc&shop=example.myshopify.com&timestamp=1337");
    let params = pairs(&[
        ("shop", "example.myshopify.com"),
        ("timestamp", "1338"),
        ("code", "abc"),
        ("hmac", &tag),
    ]);
    assert!(!app.valid_hmac(&params));
    let params = pairs(&[
        ("shop", "example.myshopify.com"),
        ("timestamp", "1337"),
        ("code", "abd"),
        ("hmac", &tag),
    ]);
    assert!(!app.valid_hmac(&params));
}

#[test]
fn valid_hmac_rejects_flipped_tag() {
    let app = demo_app("secret");
    let mut tag = app
        .generate_hmac_hex(b"code=abc&shop=example.myshopify.com&timestamp=1337")
        .into_bytes();
    tag[0] = if tag[0] == b'0' { b'1' } else { b'0' };
    let tag = String::from_utf8(tag).unwrap();
    let params = pairs(&[
        ("shop", "example.myshopify.com"),
        ("timestamp", "1337"),
        ("code", "abc"),
        ("hmac", &tag),
    ]);
    assert!(!app.valid_hmac(&params));
}

#[test]
fn valid_hmac_is_order_independent() {
    let app = demo_app("secret");
    let tag = app.generate_hmac_hex(b"code=abc&shop=example.myshopify.com&timestamp=1337");
    let orders: [&[(&str, &str)]; 3] = [
        &[
            ("hmac", ""),
            ("code", "abc"),
            ("timestamp", "1337"),
            ("shop", "example.myshopify.com"),
        ],
        &[
            ("code", "abc"),
            ("hmac", ""),
            ("shop", "example.myshopify.com"),
            ("timestamp", "1337"),
        ],
        &[
            ("timestamp", "1337"),
            ("shop", "example.myshopify.com"),
            ("code", "abc"),
            ("hmac", ""),
        ],
    ];
    for order in orders.iter() {
        let params: Vec<(String, String)> = order
            .iter()
            .map(|(k, v)| {
                if *k == "hmac" {
                    (k.to_string(), tag.clone())
                } else {
                    (k.to_string(), v.to_string())
                }
            })
            .collect();
        assert!(app.valid_hmac(&params));
    }
}

#[test]
fn valid_hmac_keeps_equal_keys_stable() {
    let app = demo_app("secret");
    let tag = app.generate_hmac_hex(b"a=2&a=1&b=3");
    let params = pairs(&[("b", "3"), ("a", "2"), ("hmac", &tag), ("a", "1")]);
    assert!(app.valid_hmac(&params));
    let swapped = pairs(&[("b", "3"), ("a", "1"), ("hmac", &tag), ("a", "2")]);
    assert!(!app.valid_hmac(&swapped));
}

#[test]
fn valid_hmac_fails_closed() {
    let app = demo_app("secret");
    let no_signature = pairs(&[("shop", "example.myshopify.com"), ("code", "abc")]);
    assert!(!app.valid_hmac(&no_signature));
    let empty: Vec<(String, String)> = Vec::new();
    assert!(!app.valid_hmac(&empty));
    let tag = app.generate_hmac_hex(b"");
    let only_signature = pairs(&[("hmac", &tag)]);
    assert!(!app.valid_hmac(&only_signature));
}

#[test]
fn access_mode_tokens() {
    assert_eq!(AccessMode::Online.as_string(), "online");
    assert_eq!(AccessMode::Offline.as_string(), "offline");
}
