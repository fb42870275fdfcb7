use osm_api::cache::EngineError;
use osm_api::object::OSMObjectSpecifics;
use osm_api::object_manager::OSMObjectManager;
use std::time::{SystemTime, UNIX_EPOCH};

fn fresh_path(tag: &str) -> String {
    let nanos = SystemTime::now().duration_since(UNIX_EPOCH).unwrap().as_nanos();
    format!("/tmp/osm_api_cache_{}_{}.db", tag, nanos)
}

#[test]
fn corrupt_payload_is_reported() {
    let path = fresh_path("corrupt");
    let m = OSMObjectManager::new(&path).unwrap();
    // Scribble an undecodable payload straight into the cache table.
    {
        let conn = rusqlite::Connection::open(&path).unwrap();
        conn.execute(
            "CREATE TABLE IF NOT EXISTS raw_entities (id INTEGER PRIMARY KEY, key text UNIQUE NOT NULL, value text NOT NULL)",
            &[],
        )
        .unwrap();
        conn.execute(
            "INSERT OR REPLACE INTO raw_entities (key, value) VALUES ('n1', 'not an object')",
            &[],
        )
        .unwrap();
    }
    match m.get_cached_object("n1") {
        Err(EngineError::Corrupt) => (),
        other => panic!("expected a corrupt payload error, got {:?}", other),
    }
    match m.cached_objects() {
        Err(EngineError::Corrupt) => (),
        other => panic!("expected a corrupt payload error, got {:?}", other),
    }
    m.close().unwrap();
}

#[test]
fn error_descriptions() {
    assert_eq!(EngineError::Cache.describe(), "cache operation failed");
    assert_eq!(EngineError::Corrupt.describe(), "cached payload could not be decoded");
    assert_eq!(
        EngineError::MissingDependency.describe(),
        "dependency missing after resolution"
    );
}

#[test]
fn ingest_fails_without_element_array() {
    let path = fresh_path("nobracket");
    let mut m = OSMObjectManager::new(&path).unwrap();
    assert!(m.cache_objects_from("{\"version\":0.6}", true).is_err());
    m.close().unwrap();
}

#[test]
fn ingest_reads_string_escapes_and_unicode() {
    let path = fresh_path("escapes");
    let mut m = OSMObjectManager::new(&path).unwrap();
    let body = "{\"elements\":[ {\"type\":\"node\", \"id\":3, \"lat\":-0.5, \"lon\":0.25, \"timestamp\":\"t\", \"version\":1, \"changeset\":1, \"tags\":{\"name\":\"a\\\"b\\\\c\\nd\", \"city\":\"Plze\u{148}\"}} ]}";
    let objs = m.cache_objects_from(body, true).unwrap();
    assert_eq!(objs.len(), 1);
    let n = m.get_cached_object("n3").unwrap().expect("cached");
    assert_eq!(n.tag("name").map(|s| s.as_str()), Some("a\"b\\c\nd"));
    assert_eq!(n.tag("city").map(|s| s.as_str()), Some("Plze\u{148}"));
    match n.specifics {
        OSMObjectSpecifics::Node { lon7, lat7 } => {
            assert_eq!(lon7, 2500000);
            assert_eq!(lat7, -5000000);
        },
        _ => panic!("wrong kind"),
    }
    m.close().unwrap();
}

#[test]
fn ingest_stops_at_first_unparsable_element() {
    let path = fresh_path("stop");
    let mut m = OSMObjectManager::new(&path).unwrap();
    let body = "{\"elements\":[ {\"type\":\"node\",\"id\":1,\"lat\":0,\"lon\":0,\"timestamp\":\"t\",\"version\":1,\"changeset\":1}, {\"type\":\"mystery\",\"id\":2} ]}";
    let objs = m.cache_objects_from(body, true).unwrap();
    assert_eq!(objs.len(), 1);
    assert!(m.has_object("n1").unwrap());
    assert!(!m.has_object("n2").unwrap());
    m.close().unwrap();
}
