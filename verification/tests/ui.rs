use devnet_mempool::ui::{
    cache_control_for_path, content_type_for_path, get_asset, normalize_asset_path,
    response_for_path, should_fallback_to_index, Asset, AssetChoice,
};

const ASSETS: [Asset; 3] = [
    Asset { path: "index.html", bytes: b"<html></html>" },
    Asset { path: "assets/app.js", bytes: b"console.log(1)" },
    Asset { path: "favicon.ico", bytes: b"\x00" },
];

#[test]
fn leading_slashes_are_dropped() {
    assert_eq!(normalize_asset_path("///assets/app.js"), Some("assets/app.js"));
    assert_eq!(normalize_asset_path("assets/app.js"), Some("assets/app.js"));
    assert_eq!(normalize_asset_path("a/b.c/d"), Some("a/b.c/d"));
    assert_eq!(normalize_asset_path("..."), Some("..."));
}

#[test]
fn escaping_paths_are_refused() {
    assert_eq!(normalize_asset_path(""), None);
    assert_eq!(normalize_asset_path("///"), None);
    assert_eq!(normalize_asset_path("a\\b"), None);
    assert_eq!(normalize_asset_path("../secret"), None);
    assert_eq!(normalize_asset_path("a/./b"), None);
    assert_eq!(normalize_asset_path("a//b"), None);
    assert_eq!(normalize_asset_path("a/"), None);
    assert_eq!(normalize_asset_path("a/.."), None);
}

#[test]
fn client_routes_fall_back_to_index() {
    assert!(should_fallback_to_index("accounts/details"));
    assert!(should_fallback_to_index(""));
    assert!(!should_fallback_to_index("assets/app.js"));
    assert!(should_fallback_to_index("v1.2/blocks"));
}

#[test]
fn content_types_by_extension() {
    assert_eq!(content_type_for_path("a/style.css"), "text/css; charset=utf-8");
    assert_eq!(content_type_for_path("index.html"), "text/html; charset=utf-8");
    assert_eq!(content_type_for_path("favicon.ico"), "image/x-icon");
    assert_eq!(content_type_for_path("app.js"), "text/javascript; charset=utf-8");
    assert_eq!(content_type_for_path("app.mjs"), "text/javascript; charset=utf-8");
    assert_eq!(content_type_for_path("app.js.map"), "application/json");
    assert_eq!(content_type_for_path("data.json"), "application/json");
    assert_eq!(content_type_for_path("logo.png"), "image/png");
    assert_eq!(content_type_for_path("logo.svg"), "image/svg+xml");
    assert_eq!(content_type_for_path("module.wasm"), "application/wasm");
    assert_eq!(content_type_for_path("LICENSE"), "application/octet-stream");
}

#[test]
fn cache_control_revalidates_only_the_index() {
    assert_eq!(cache_control_for_path("index.html"), "no-cache");
    assert_eq!(cache_control_for_path("assets/app.js"), "public, max-age=31536000, immutable");
}

#[test]
fn assets_are_found_by_path() {
    assert_eq!(get_asset(&ASSETS, "assets/app.js"), Some(1));
    assert_eq!(get_asset(&ASSETS, "missing.js"), None);
    assert_eq!(response_for_path(&ASSETS, "favicon.ico"), AssetChoice::Asset(2));
    assert_eq!(response_for_path(&ASSETS, "accounts/42"), AssetChoice::Asset(0));
    assert_eq!(response_for_path(&ASSETS, "missing.js"), AssetChoice::NotFound);
    assert_eq!(response_for_path(&ASSETS[1..], "accounts/42"), AssetChoice::NotFound);
}

#[test]
fn normalized_paths_normalize_to_themselves() {
    for path in ["//assets/app.js", "a/b.c/d", "index.html", "/x"] {
        let normalized = normalize_asset_path(path).unwrap();
        assert_eq!(normalize_asset_path(normalized), Some(normalized));
        assert!(!normalized.starts_with('/'));
    }
}
