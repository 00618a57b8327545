use dyn_hash::error::DynHashError;
use dyn_hash::parse::{parse_dyn_hash_file_path, DynHashFile};
use dyn_hash::routes::{has_route_yet, reconcile};
use dyn_hash::scan::HashFileScan;

fn file(path: &str) -> DynHashFile {
    parse_dyn_hash_file_path(path).unwrap()
}

const ROUTES: &str = "use actix_files::NamedFile;\n\
use crate::error::AppError;\n\
\n\
#[get(\"logo-11111111.png\")]\n\
pub async fn get_logo_png() -> Result<NamedFile, AppError> {\n\
    Ok(NamedFile::open(\"src/web/dist/assets/logo-11111111.png\").unwrap())\n\
}\n";

#[test]
fn parse_splits_prefix_hash_and_ext() {
    let f = file("/srv/app/dist/assets/logo-8f3a1c2d.png");
    assert_eq!(f.prefix, "logo");
    assert_eq!(f.hash, "8f3a1c2d");
    assert_eq!(f.ext, "png");
    assert_eq!(f.filename, "logo-8f3a1c2d.png");
    assert_eq!(f.web_route, "#[get(\"logo-8f3a1c2d.png\")]");
}

#[test]
fn parse_keeps_dashes_in_prefix() {
    let f = file("dist/my-component-8f3a1c2d.js");
    assert_eq!(f.prefix, "my-component");
    assert_eq!(f.hash, "8f3a1c2d");
    assert_eq!(f.ext, "js");
}

#[test]
fn parse_round_trips_composed_name() {
    let f = file("vendor.lib-0a1b2c3d.css");
    assert_eq!(format!("{}-{}.{}", f.prefix, f.hash, f.ext), "vendor.lib-0a1b2c3d.css");
    assert_eq!(f.prefix, "vendor.lib");
}

#[test]
fn parse_rejects_unhashed_names() {
    assert!(parse_dyn_hash_file_path("dist/index.html").is_none());
    assert!(parse_dyn_hash_file_path("dist/logo-8f3a1c2d").is_none());
    assert!(parse_dyn_hash_file_path("dist/logo-8f3a.1c2d.png").is_none());
    assert!(parse_dyn_hash_file_path("dist-x/readme").is_none());
    assert!(parse_dyn_hash_file_path("").is_none());
}

#[test]
fn has_route_yet_finds_route_line() {
    assert!(has_route_yet(ROUTES, "logo", "png"));
    assert!(!has_route_yet(ROUTES, "logo", "svg"));
    assert!(!has_route_yet(ROUTES, "chunk", "js"));
    assert!(!has_route_yet("#[get(\"logo-\n1.png\")]", "logo", "png"));
    assert!(has_route_yet("a\r\n#[get(\"logo-1.png\")]\r\n", "logo", "png"));
}

#[test]
fn reconcile_rewrites_stale_hash_in_place() {
    let files = vec![file("dist/assets/logo-22222222.png")];
    let out = reconcile(ROUTES, &files).unwrap();
    assert_eq!(out, ROUTES.replace("11111111", "22222222"));
    assert_eq!(out.matches("#[get(").count(), 1);
}

#[test]
fn reconcile_appends_route_for_new_file() {
    let files = vec![file("dist/assets/chunk-abcdef12.js")];
    let out = reconcile(ROUTES, &files).unwrap();
    let expected = format!(
        "{}\n#[get(\"chunk-abcdef12.js\")]\n\
pub async fn get_chunk_js() -> Result<NamedFile, AppError> {{\n    \
Ok(NamedFile::open(\"src/web/dist/assets/chunk-abcdef12.js\").unwrap())\n}}\n",
        ROUTES
    );
    assert_eq!(out, expected);
    assert!(out.starts_with(ROUTES));
}

#[test]
fn reconcile_twice_changes_nothing() {
    let files = vec![
        file("dist/assets/logo-22222222.png"),
        file("dist/assets/chunk-abcdef12.js"),
        file("dist/assets/app-0f0f0f0f.css"),
    ];
    let once = reconcile(ROUTES, &files).unwrap();
    let twice = reconcile(&once, &files).unwrap();
    assert_eq!(once, twice);
    assert_eq!(once.matches("#[get(").count(), 3);
}

#[test]
fn reconcile_appends_one_block_per_key() {
    let files = vec![file("a/chunk-abcdef12.js"), file("b/chunk-abcdef12.js")];
    let out = reconcile(ROUTES, &files).unwrap();
    assert_eq!(out.matches("#[get(\"chunk-abcdef12.js\")]").count(), 1);
}

#[test]
fn reconcile_without_error_import_fails_when_route_needed() {
    let text = "#[get(\"logo-11111111.png\")]\n";
    let files = vec![file("dist/chunk-abcdef12.js")];
    assert!(matches!(reconcile(text, &files), Err(DynHashError::MissingErrorTypeName)));
}

#[test]
fn reconcile_without_error_import_succeeds_when_no_route_needed() {
    let text = "#[get(\"logo-11111111.png\")]";
    let files = vec![file("dist/logo-22222222.png")];
    assert_eq!(reconcile(text, &files).unwrap(), "#[get(\"logo-22222222.png\")]\n");
}

#[test]
fn reconcile_takes_first_import_and_strips_it() {
    let text = "use crate::error::FirstError;\nuse crate::error::SecondError;\n";
    let files = vec![file("dist/x-12345678.js")];
    let out = reconcile(text, &files).unwrap();
    assert!(out.contains("-> Result<NamedFile, FirstError> {\n"));
    assert!(!out.contains("SecondError>"));
}

#[test]
fn reconcile_normalises_crlf_and_empty_input() {
    let files: Vec<DynHashFile> = Vec::new();
    assert_eq!(reconcile("a\r\nb\r\n", &files).unwrap(), "a\nb\n");
    assert_eq!(reconcile("", &files).unwrap(), "");
    assert_eq!(reconcile("a\n\nb", &files).unwrap(), "a\n\nb\n");
}

#[test]
fn reconcile_short_span_replaces_to_line_end() {
    let text = "use crate::error::E;\n<logo-12.png\n";
    let files = vec![file("dist/logo-abcdefgh.png")];
    let out = reconcile(text, &files).unwrap();
    assert!(out.starts_with("use crate::error::E;\n<logo-abcdefgh\n"));
}

#[test]
fn reconcile_first_matching_file_wins() {
    let text = "use crate::error::E;\nx-00000000.js\n";
    let files = vec![file("d/x-11111111.js"), file("d/x-22222222.js")];
    let out = reconcile(text, &files).unwrap();
    assert!(out.starts_with("use crate::error::E;\nx-11111111.js\n"));
}

#[test]
fn scan_walks_directories_last_in_first_out() {
    let mut scan = HashFileScan::new("dist".to_string());
    assert_eq!(scan.next_dir(), Some("dist".to_string()));
    assert_eq!(scan.next_dir(), None);
    scan.visit_entry("dist/assets".to_string(), true);
    scan.visit_entry("dist/chunks".to_string(), true);
    scan.visit_entry("dist/index.html".to_string(), false);
    scan.visit_entry("dist/logo-8f3a1c2d.png".to_string(), false);
    assert_eq!(scan.next_dir(), Some("dist/chunks".to_string()));
    scan.visit_entry("dist/chunks/app-11112222.js".to_string(), false);
    assert_eq!(scan.next_dir(), Some("dist/assets".to_string()));
    assert_eq!(scan.next_dir(), None);
    let found = scan.into_found();
    assert_eq!(found.len(), 2);
    assert_eq!(found[0].filename, "logo-8f3a1c2d.png");
    assert_eq!(found[1].prefix, "app");
    assert_eq!(found[1].ext, "js");
}

#[test]
fn io_error_converts() {
    let e = std::io::Error::new(std::io::ErrorKind::NotFound, "gone");
    assert!(matches!(DynHashError::from(e), DynHashError::StdIoError(_)));
}

#[test]
fn reconcile_twice_on_crlf_text_changes_nothing() {
    let text = "use crate::error::E;\r\n#[get(\"logo-11111111.png\")]\r\n";
    let files = vec![file("d/logo-22222222.png"), file("d/app-33333333.css")];
    let once = reconcile(text, &files).unwrap();
    assert!(!once.contains('\r'));
    assert_eq!(reconcile(&once, &files).unwrap(), once);
}

#[test]
fn reconcile_appends_each_missing_file_once() {
    let files = vec![file("d/app-33333333.css"), file("d/chunk-abcdef12.js")];
    let out = reconcile(ROUTES, &files).unwrap();
    assert_eq!(out.matches("#[get(\"app-33333333.css\")]").count(), 1);
    assert_eq!(out.matches("#[get(\"chunk-abcdef12.js\")]").count(), 1);
    assert_eq!(out.matches("src/web/dist/assets/app-33333333.css").count(), 1);
    assert!(out.find("app-33333333.css").unwrap() < out.find("chunk-abcdef12.js").unwrap());
}
