use mdlib::assets::{list_embedded_files, verify_essential_files, StaticAssets};
use mdlib::config::AppConfig;

fn strs(v: &[&str]) -> Vec<String> {
    v.iter().map(|s| s.to_string()).collect()
}

#[test]
fn default_config_values() {
    let c = AppConfig::default();
    assert_eq!(c.port, 3000);
    assert!(c.watch_files);
    assert_eq!(c.bind_address, "127.0.0.1");
    assert_eq!(c.max_file_size_mb, 10);
    assert!(!c.default_dark_mode);
}

#[test]
fn server_address_joins_host_and_port() {
    let c = AppConfig::default();
    assert_eq!(c.server_address(), "127.0.0.1:3000");
    let c2 = AppConfig {
        port: 65535,
        bind_address: "0.0.0.0".to_string(),
        ..AppConfig::default()
    };
    assert_eq!(c2.server_address(), "0.0.0.0:65535");
}

#[test]
fn essential_files_all_present() {
    let assets = StaticAssets {
        files: strs(&["css/styles.css", "index.html", "js/app.js", "extra.svg"]),
    };
    assert!(verify_essential_files(&assets).is_ok());
}

#[test]
fn essential_files_missing_are_reported_in_order() {
    let assets = StaticAssets { files: strs(&["js/app.js"]) };
    let missing = verify_essential_files(&assets).unwrap_err();
    assert_eq!(missing, strs(&["index.html", "css/styles.css"]));
}

#[test]
fn embedded_files_listed_in_order() {
    let assets = StaticAssets { files: strs(&["index.html", "js/app.js"]) };
    assert_eq!(list_embedded_files(&assets), strs(&["index.html", "js/app.js"]));
}

#[test]
fn asset_requests_resolve_to_catalogue_names() {
    let assets = StaticAssets {
        files: strs(&["index.html", "js/app.js", "css/styles.css"]),
    };
    assert_eq!(
        mdlib::assets::resolve_asset(&assets, "").as_deref(),
        Some("index.html")
    );
    assert_eq!(
        mdlib::assets::resolve_asset(&assets, "/").as_deref(),
        Some("index.html")
    );
    assert_eq!(
        mdlib::assets::resolve_asset(&assets, "/js/app.js").as_deref(),
        Some("js/app.js")
    );
    assert_eq!(mdlib::assets::resolve_asset(&assets, "missing.png"), None);
}

#[test]
fn scripts_and_styles_fall_back_to_their_subfolders() {
    let assets = StaticAssets {
        files: strs(&["js/app.js", "css/styles.css"]),
    };
    assert_eq!(
        mdlib::assets::resolve_asset(&assets, "app.js").as_deref(),
        Some("js/app.js")
    );
    assert_eq!(
        mdlib::assets::resolve_asset(&assets, "styles.css").as_deref(),
        Some("css/styles.css")
    );
    assert_eq!(mdlib::assets::resolve_asset(&assets, "other.js"), None);
}
