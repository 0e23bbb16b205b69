use nadi_gis::fields::{named_edges, sanitize_key, type_name_to_field, FieldError, FieldKind};
use nadi_gis::usgs::GeoInfo;
use nadi_gis::utils::{compare_spatial_refs, parse_new_layer, same_text, SpatialRefs};

#[test]
fn queries_of_the_kinds_of_data() {
    assert_eq!(GeoInfo::Upstream.usgs_query(), "navigate/UM?f=json");
    assert_eq!(GeoInfo::NwisSite.usgs_query(), "navigate/UT/nwissite?f=json");
    assert_eq!(GeoInfo::Downstream.usgs_query(), "navigate/DM?f=json");
    assert_eq!(GeoInfo::Tributaries.usgs_query(), "navigate/UT?f=json");
    assert_eq!(GeoInfo::Basin.usgs_query(), "basin?f=json");
}

#[test]
fn file_names_of_the_kinds_of_data() {
    assert_eq!(GeoInfo::Upstream.filename("03227500"), "03227500_upstream.json");
    assert_eq!(GeoInfo::Downstream.filename("03227500"), "03227500_downstream.json");
    assert_eq!(GeoInfo::Tributaries.filename("03227500"), "03227500_tributaries.json");
    assert_eq!(GeoInfo::Basin.filename("03227500"), "03227500_basin.json");
    assert_eq!(GeoInfo::NwisSite.filename("03227500"), "03227500_nwis-site.json");
    assert_eq!(GeoInfo::Basin.filename(""), "_basin.json");
}

#[test]
fn addresses_of_the_kinds_of_data() {
    assert_eq!(
        GeoInfo::Tributaries.usgs_url("03227500"),
        "https://api.water.usgs.gov/nldi/linked-data/nwissite/USGS-03227500/navigate/UT?f=json"
    );
    assert_eq!(
        GeoInfo::Basin.usgs_url("1"),
        "https://api.water.usgs.gov/nldi/linked-data/nwissite/USGS-1/basin?f=json"
    );
}

#[test]
fn a_layer_is_named_behind_the_first_colon() {
    assert_eq!(parse_new_layer("out.gpkg"), ("out.gpkg".to_string(), None));
    assert_eq!(parse_new_layer("out.gpkg:nodes"), ("out.gpkg".to_string(), Some("nodes".to_string())));
    assert_eq!(parse_new_layer("a:b:c"), ("a".to_string(), Some("b:c".to_string())));
    assert_eq!(parse_new_layer(":x"), ("".to_string(), Some("x".to_string())));
    assert_eq!(parse_new_layer("x:"), ("x".to_string(), Some("".to_string())));
    assert_eq!(parse_new_layer(""), ("".to_string(), None));
    assert_eq!(parse_new_layer("données.gpkg:rivière"), ("données.gpkg".to_string(), Some("rivière".to_string())));
}

#[test]
fn spatial_references_compare() {
    assert_eq!(compare_spatial_refs(Some("+proj=longlat"), Some("+proj=longlat")), SpatialRefs::Same);
    assert_eq!(compare_spatial_refs(Some("+proj=longlat"), Some("+proj=utm")), SpatialRefs::Mismatch);
    assert_eq!(compare_spatial_refs(Some("+proj=longlat"), None), SpatialRefs::StreamsMissing);
    assert_eq!(compare_spatial_refs(None, Some("+proj=longlat")), SpatialRefs::PointsMissing);
    assert_eq!(compare_spatial_refs(None, None), SpatialRefs::BothMissing);
    assert!(SpatialRefs::Same.is_ok());
    assert!(!SpatialRefs::Mismatch.is_ok());
    assert!(SpatialRefs::StreamsMissing.is_ok());
    assert!(SpatialRefs::PointsMissing.is_ok());
    assert!(SpatialRefs::BothMissing.is_ok());
    assert!(same_text("", ""));
    assert!(!same_text("a", "A"));
}

#[test]
fn blanks_become_underscores() {
    assert_eq!(sanitize_key("site no"), "site_no");
    assert_eq!(sanitize_key(" a  b "), "_a__b_");
    assert_eq!(sanitize_key("plain"), "plain");
    assert_eq!(sanitize_key(""), "");
    assert_eq!(sanitize_key("débit moyen"), "débit_moyen");
    assert_eq!(sanitize_key("tab\tstays"), "tab\tstays");
}

#[test]
fn names_of_types_are_read() {
    assert_eq!(type_name_to_field("Attribute"), Ok(FieldKind::Attribute));
    assert_eq!(type_name_to_field("String"), Ok(FieldKind::String));
    assert_eq!(type_name_to_field("Integer"), Ok(FieldKind::Integer));
    assert_eq!(type_name_to_field("Float"), Ok(FieldKind::Float));
    assert_eq!(type_name_to_field("Date"), Ok(FieldKind::Date));
    assert_eq!(type_name_to_field("DateTime"), Ok(FieldKind::DateTime));
}

#[test]
fn other_names_of_types_are_refused() {
    assert_eq!(
        type_name_to_field("Time"),
        Err("Type Time Not supported. Use String, Integer, Float, Date, DateTime or Attribute".to_string())
    );
    assert_eq!(
        type_name_to_field("string"),
        Err("Type string Not supported. Use String, Integer, Float, Date, DateTime or Attribute".to_string())
    );
    assert!(type_name_to_field("").is_err());
}

#[test]
fn rows_without_a_gap_give_their_edges() {
    let row = |a: Option<&str>, b: Option<&str>| (a.map(String::from), b.map(String::from));
    let rows = vec![row(Some("a"), Some("b")), row(Some("b"), Some("c"))];
    let edges = vec![("a".to_string(), "b".to_string()), ("b".to_string(), "c".to_string())];
    assert_eq!(named_edges(&rows, false), Ok(edges.clone()));
    assert_eq!(named_edges(&rows, true), Ok(edges));
    assert_eq!(named_edges(&Vec::new(), false), Ok(Vec::new()));
}

#[test]
fn a_row_with_a_gap_is_refused_or_passed_over() {
    let row = |a: Option<&str>, b: Option<&str>| (a.map(String::from), b.map(String::from));
    let rows = vec![
        row(Some("a"), Some("b")),
        row(None, Some("c")),
        row(Some("c"), None),
        row(None, None),
        row(Some("c"), Some("d")),
    ];
    assert_eq!(named_edges(&rows, false), Err(FieldError::NullValue));
    assert_eq!(
        named_edges(&rows, true),
        Ok(vec![("a".to_string(), "b".to_string()), ("c".to_string(), "d".to_string())])
    );
    assert_eq!(FieldError::NullValue.message(), "Null value on source field");
}
