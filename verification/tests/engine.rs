use osm_api::cache::EngineError;
use osm_api::change::{OSMObjectChange, OSMObjectChangeType};
use osm_api::object::{OSMObject, OSMObjectSpecifics, OSMObjectType, OSMRelationMember, Tag};
use osm_api::object_manager::{classify_status, OSMObjectManager, QueryAction};
use std::time::{SystemTime, UNIX_EPOCH};

fn fresh_manager(test_tag: &str) -> OSMObjectManager {
    let nanos = SystemTime::now().duration_since(UNIX_EPOCH).unwrap().as_nanos();
    let path = format!("/tmp/osm_api_cache_{}_{}.db", test_tag, nanos);
    OSMObjectManager::new(&path).expect("open cache")
}

fn tag(k: &str, v: &str) -> Tag {
    Tag { key: k.to_string(), value: v.to_string() }
}

fn node(id: u64, lon7: i64, lat7: i64) -> OSMObject {
    OSMObject {
        id,
        timestamp: "2020-01-01T00:00:00Z".to_string(),
        version: 1,
        changeset: 10,
        tags: vec![],
        specifics: OSMObjectSpecifics::Node { lon7, lat7 },
    }
}

fn way(id: u64, nodes: Vec<u64>, tags: Vec<Tag>) -> OSMObject {
    OSMObject {
        id,
        timestamp: "2020-01-01T00:00:00Z".to_string(),
        version: 1,
        changeset: 10,
        tags,
        specifics: OSMObjectSpecifics::Way { nodes },
    }
}

fn relation(id: u64, members: Vec<(OSMObjectType, u64, &str)>, tags: Vec<Tag>) -> OSMObject {
    OSMObject {
        id,
        timestamp: "2020-01-01T00:00:00Z".to_string(),
        version: 1,
        changeset: 10,
        tags,
        specifics: OSMObjectSpecifics::Relation {
            members: members
                .into_iter()
                .map(|(t, r, role)| OSMRelationMember { m_type: t, ref_id: r, role: role.to_string() })
                .collect(),
        },
    }
}

#[test]
fn cache_put_get_has() {
    let mut m = fresh_manager("putget");
    let n = node(1, 100000000, 200000000);
    assert!(!m.has_object("n1").unwrap());
    m.cache_object_into(&n).unwrap();
    m.commit_cache().unwrap();
    assert!(m.has_object("n1").unwrap());
    let back = m.get_cached_object("n1").unwrap().expect("present");
    assert_eq!(back.id, 1);
    assert!(m.get_cached_object("n2").unwrap().is_none());
    m.close().unwrap();
}

#[test]
fn cache_overwrites_on_reinsert() {
    let mut m = fresh_manager("overwrite");
    m.cache_object_into(&node(1, 0, 0)).unwrap();
    m.cache_object_into(&node(1, 5, 6)).unwrap();
    m.commit_cache().unwrap();
    let back = m.get_cached_object("n1").unwrap().expect("present");
    match back.specifics {
        OSMObjectSpecifics::Node { lon7, lat7 } => {
            assert_eq!((lon7, lat7), (5, 6));
        },
        _ => panic!("wrong kind"),
    }
    assert_eq!(m.cached_objects().unwrap().len(), 1);
    m.close().unwrap();
}

#[test]
fn ingest_parses_and_caches_every_element() {
    let mut m = fresh_manager("ingest");
    let mut body = String::new();
    body.push_str("{\"version\":0.6,\"generator\":\"test\",\"elements\":[");
    body.push_str("{\"type\":\"node\",\"id\":1,\"lat\":20.0,\"lon\":10.0,");
    body.push_str("\"timestamp\":\"2020-01-01T00:00:00Z\",\"version\":2,\"changeset\":7,");
    body.push_str("\"tags\":{\"name\":\"X y\"}},");
    body.push_str("{\"type\":\"way\",\"id\":5,\"timestamp\":\"2020-01-02T00:00:00Z\",");
    body.push_str("\"version\":1,\"changeset\":3,\"nodes\":[1],\"tags\":{\"building\":\"yes\"}},");
    body.push_str("{\"type\":\"relation\",\"id\":9,\"timestamp\":\"t\",\"version\":1,\"changeset\":3,");
    body.push_str("\"members\":[{\"type\":\"way\",\"ref\":5,\"role\":\"outer\"}],");
    body.push_str("\"tags\":{\"type\":\"multipolygon\"}}");
    body.push_str("]}");
    let objs = m.cache_objects_from(&body, true).unwrap();
    assert_eq!(objs.len(), 3);
    assert_eq!(objs[0].unique_id(), "n1");
    assert_eq!(objs[1].unique_id(), "w5");
    assert_eq!(objs[2].unique_id(), "r9");
    assert!(m.has_object("n1").unwrap());
    assert!(m.has_object("w5").unwrap());
    assert!(m.has_object("r9").unwrap());
    let n1 = m.get_cached_object("n1").unwrap().expect("cached");
    match n1.specifics {
        OSMObjectSpecifics::Node { lon7, lat7 } => {
            assert_eq!((lon7, lat7), (100000000, 200000000));
        },
        _ => panic!("wrong kind"),
    }
    assert_eq!(n1.tag("name").map(|s| s.as_str()), Some("X y"));
    assert_eq!(n1.version, 2);
    assert_eq!(n1.changeset, 7);
    assert_eq!(m.cached_objects().unwrap().len(), 3);
    m.close().unwrap();
}

#[test]
fn ingest_without_objects_returns_none_back() {
    let mut m = fresh_manager("ingestquiet");
    let body = "{\"elements\":[{\"type\":\"node\",\"id\":4,\"lat\":1.5,\"lon\":-2.25,\"timestamp\":\"t\",\"version\":1,\"changeset\":1}]}";
    let objs = m.cache_objects_from(body, false).unwrap();
    assert!(objs.is_empty());
    assert!(m.has_object("n4").unwrap());
    m.close().unwrap();
}

#[test]
fn missing_dependencies_are_reported_in_order() {
    let mut m = fresh_manager("deps");
    m.cache_object_into(&node(1, 0, 0)).unwrap();
    m.commit_cache().unwrap();
    let w = way(5, vec![1, 2, 3], vec![]);
    let r = relation(9, vec![(OSMObjectType::Way, 5, "outer"), (OSMObjectType::Node, 2, "")], vec![]);
    let missing = m.missing_dependencies_for(&vec![w, r]).unwrap();
    assert_eq!(missing, vec!["n2".to_string(), "n3".to_string(), "w5".to_string(), "n2".to_string()]);
    let n = node(1, 0, 0);
    let none = m.missing_dependencies_for(&vec![n]).unwrap();
    assert!(none.is_empty());
    m.close().unwrap();
}

#[test]
fn point_geometry_renders_exactly() {
    let mut m = fresh_manager("point");
    let n1 = node(1, 100000000, 200000000);
    m.cache_object_into(&n1).unwrap();
    m.commit_cache().unwrap();
    let g = m.get_geometry_as_wkt(&n1).unwrap();
    assert_eq!(g.as_deref(), Some("POINT(10 20)"));
    m.close().unwrap();
}

#[test]
fn closed_way_renders_as_polygon() {
    let mut m = fresh_manager("waypoly");
    m.cache_object_into(&node(1, 0, 0)).unwrap();
    m.cache_object_into(&node(2, 10000000, 0)).unwrap();
    m.commit_cache().unwrap();
    let w1 = way(10, vec![1, 2, 1], vec![tag("building", "yes")]);
    let g = m.get_geometry_as_wkt(&w1).unwrap();
    assert_eq!(g.as_deref(), Some("POLYGON((0 0, 1 0, 0 0))"));
    m.close().unwrap();
}

#[test]
fn open_way_renders_as_linestring() {
    let mut m = fresh_manager("wayline");
    m.cache_object_into(&node(1, 0, 0)).unwrap();
    m.cache_object_into(&node(2, 10000000, 0)).unwrap();
    m.commit_cache().unwrap();
    let w2 = way(11, vec![1, 2], vec![]);
    let g = m.get_geometry_as_wkt(&w2).unwrap();
    assert_eq!(g.as_deref(), Some("LINESTRING(0 0, 1 0)"));
    m.close().unwrap();
}

#[test]
fn degenerate_way_has_no_geometry() {
    let mut m = fresh_manager("waynone");
    m.cache_object_into(&node(1, 0, 0)).unwrap();
    m.commit_cache().unwrap();
    let w3 = way(12, vec![1], vec![]);
    assert!(m.get_geometry_as_wkt(&w3).unwrap().is_none());
    m.close().unwrap();
}

#[test]
fn way_with_missing_node_is_fatal() {
    let m = fresh_manager("waymissing");
    let w = way(12, vec![77], vec![]);
    match m.get_geometry_as_wkt(&w) {
        Err(EngineError::MissingDependency) => (),
        other => panic!("expected a missing dependency, got {:?}", other),
    }
    m.close().unwrap();
}

#[test]
fn multipolygon_two_outer_rings() {
    let mut m = fresh_manager("mptwo");
    m.cache_object_into(&node(1, 0, 0)).unwrap();
    m.cache_object_into(&node(2, 10000000, 0)).unwrap();
    m.cache_object_into(&node(3, 10000000, 10000000)).unwrap();
    m.cache_object_into(&node(4, 50000000, 50000000)).unwrap();
    m.cache_object_into(&node(5, 60000000, 50000000)).unwrap();
    m.cache_object_into(&node(6, 60000000, 60000000)).unwrap();
    let w10 = way(10, vec![1, 2, 3, 1], vec![]);
    let w11 = way(11, vec![4, 5, 6, 4], vec![]);
    m.cache_object_into(&w10).unwrap();
    m.cache_object_into(&w11).unwrap();
    let r1 = relation(
        20,
        vec![(OSMObjectType::Way, 10, "outer"), (OSMObjectType::Way, 11, "outer")],
        vec![tag("type", "multipolygon")],
    );
    m.cache_object_into(&r1).unwrap();
    m.commit_cache().unwrap();
    let g = m.get_geometry_as_wkt(&r1).unwrap();
    assert_eq!(
        g.as_deref(),
        Some("MULTIPOLYGON(((0 0, 1 0, 1 1, 0 0)), ((5 5, 6 5, 6 6, 5 5)))")
    );
    m.close().unwrap();
}

#[test]
fn multipolygon_stitches_split_outer_with_inner() {
    let mut m = fresh_manager("mpstitch");
    m.cache_object_into(&node(1, 0, 0)).unwrap();
    m.cache_object_into(&node(2, 30000000, 0)).unwrap();
    m.cache_object_into(&node(3, 30000000, 30000000)).unwrap();
    m.cache_object_into(&node(4, 0, 30000000)).unwrap();
    m.cache_object_into(&node(5, 10000000, 10000000)).unwrap();
    m.cache_object_into(&node(6, 20000000, 10000000)).unwrap();
    m.cache_object_into(&node(7, 20000000, 20000000)).unwrap();
    let w20 = way(20, vec![1, 2, 3], vec![]);
    let w21 = way(21, vec![3, 4, 1], vec![]);
    let w22 = way(22, vec![5, 6, 7, 5], vec![]);
    m.cache_object_into(&w20).unwrap();
    m.cache_object_into(&w21).unwrap();
    m.cache_object_into(&w22).unwrap();
    let r2 = relation(
        30,
        vec![
            (OSMObjectType::Way, 20, "outer"),
            (OSMObjectType::Way, 21, "outer"),
            (OSMObjectType::Way, 22, "inner"),
        ],
        vec![tag("type", "multipolygon")],
    );
    m.cache_object_into(&r2).unwrap();
    m.commit_cache().unwrap();
    let g = m.get_geometry_as_wkt(&r2).unwrap();
    assert_eq!(
        g.as_deref(),
        Some("POLYGON((0 0, 3 0, 3 3, 0 3, 0 0),(1 1, 2 1, 2 2, 1 1))")
    );
    m.close().unwrap();
}

#[test]
fn non_multipolygon_relation_renders_as_collection() {
    let mut m = fresh_manager("collection");
    let n1 = node(1, 100000000, 200000000);
    m.cache_object_into(&n1).unwrap();
    let r = relation(40, vec![(OSMObjectType::Node, 1, "stop")], vec![tag("type", "route")]);
    m.cache_object_into(&r).unwrap();
    m.commit_cache().unwrap();
    let g = m.get_geometry_as_wkt(&r).unwrap().expect("present");
    assert_eq!(g, "GEOMETRYCOLLECTION(POINT(10 20))");
    assert!(!g.starts_with("POLYGON"));
    assert!(!g.starts_with("MULTIPOLYGON"));
    m.close().unwrap();
}

#[test]
fn multipolygon_with_ambiguous_rings_falls_back() {
    let mut m = fresh_manager("ambiguous");
    m.cache_object_into(&node(1, 0, 0)).unwrap();
    m.cache_object_into(&node(2, 10000000, 0)).unwrap();
    m.cache_object_into(&node(3, 10000000, 10000000)).unwrap();
    m.cache_object_into(&node(4, 50000000, 50000000)).unwrap();
    m.cache_object_into(&node(5, 60000000, 50000000)).unwrap();
    m.cache_object_into(&node(6, 60000000, 60000000)).unwrap();
    m.cache_object_into(&node(7, 20000000, 20000000)).unwrap();
    m.cache_object_into(&node(8, 25000000, 20000000)).unwrap();
    m.cache_object_into(&node(9, 25000000, 25000000)).unwrap();
    let w1 = way(10, vec![1, 2, 3, 1], vec![]);
    let w2 = way(11, vec![4, 5, 6, 4], vec![]);
    let w3 = way(12, vec![7, 8, 9, 7], vec![]);
    m.cache_object_into(&w1).unwrap();
    m.cache_object_into(&w2).unwrap();
    m.cache_object_into(&w3).unwrap();
    // Two outer rings plus an inner ring: the attribution is ambiguous,
    // so the geometry falls back to a collection.
    let r = relation(
        50,
        vec![
            (OSMObjectType::Way, 10, "outer"),
            (OSMObjectType::Way, 11, "outer"),
            (OSMObjectType::Way, 12, "inner"),
        ],
        vec![tag("type", "multipolygon")],
    );
    m.cache_object_into(&r).unwrap();
    m.commit_cache().unwrap();
    let g = m.get_geometry_as_wkt(&r).unwrap().expect("present");
    assert!(g.starts_with("GEOMETRYCOLLECTION("), "got {}", g);
    m.close().unwrap();
}

#[test]
fn endpoint_rotation_is_fair_over_two_cycles() {
    let mut m = fresh_manager("rotation");
    let mut counts = std::collections::HashMap::new();
    for _ in 0..4 {
        let url = m.next_api_url();
        *counts.entry(url).or_insert(0) += 1;
    }
    assert_eq!(counts.len(), 2);
    for (_, c) in counts {
        assert_eq!(c, 2);
    }
    m.close().unwrap();
}

#[test]
fn successive_queries_use_different_endpoints() {
    let mut m = fresh_manager("rotatepair");
    let a = m.next_api_url();
    let b = m.next_api_url();
    assert_ne!(a, b);
    m.close().unwrap();
}

#[test]
fn throttling_kills_queries_once_and_retries_elsewhere() {
    // Endpoint A answers 429, endpoint B answers 200: exactly one kill
    // request goes to A, and the body comes from B.
    let mut m = fresh_manager("throttle");
    let mut kills: Vec<String> = vec![];
    let mut body_from: Option<String> = None;
    let statuses = [429u16, 200u16];
    let mut step = 0;
    loop {
        let url = m.next_api_url();
        match classify_status(statuses[step]) {
            QueryAction::UseBody => {
                body_from = Some(url);
                break;
            },
            QueryAction::KillQueriesAndRetry => {
                kills.push(url);
            },
            QueryAction::Retry => (),
        }
        step += 1;
    }
    assert_eq!(kills.len(), 1);
    let from = body_from.expect("a body was produced");
    assert_ne!(kills[0], from);
    m.close().unwrap();
}

#[test]
fn other_statuses_retry_without_killing() {
    assert!(matches!(classify_status(500), QueryAction::Retry));
    assert!(matches!(classify_status(404), QueryAction::Retry));
    assert!(matches!(classify_status(200), QueryAction::UseBody));
    assert!(matches!(classify_status(429), QueryAction::KillQueriesAndRetry));
}

#[test]
fn change_subject_prefers_old() {
    let old = node(1, 0, 0);
    let newer = node(1, 5, 5);
    let c = OSMObjectChange {
        change_type: OSMObjectChangeType::Modify,
        old: Some(old),
        new: Some(newer),
    };
    match c.subject() {
        Some(o) => match o.specifics {
            OSMObjectSpecifics::Node { lon7, .. } => assert_eq!(lon7, 0),
            _ => panic!("wrong kind"),
        },
        None => panic!("subject expected"),
    }
    let c2 = OSMObjectChange {
        change_type: OSMObjectChangeType::Create,
        old: None,
        new: Some(node(2, 1, 1)),
    };
    assert_eq!(c2.subject().unwrap().id, 2);
}

#[test]
fn multipolygon_from_polygon_members() {
    // Members without ring roles take the simple path: every member
    // must itself render as a polygon, and the bodies are joined in
    // member order.
    let mut m = fresh_manager("mpsimple");
    m.cache_object_into(&node(1, 0, 0)).unwrap();
    m.cache_object_into(&node(2, 10000000, 0)).unwrap();
    m.cache_object_into(&node(3, 10000000, 10000000)).unwrap();
    m.cache_object_into(&node(4, 50000000, 50000000)).unwrap();
    m.cache_object_into(&node(5, 60000000, 50000000)).unwrap();
    m.cache_object_into(&node(6, 60000000, 60000000)).unwrap();
    let w1 = way(10, vec![1, 2, 3, 1], vec![tag("building", "yes")]);
    let w2 = way(11, vec![4, 5, 6, 4], vec![tag("building", "yes")]);
    m.cache_object_into(&w1).unwrap();
    m.cache_object_into(&w2).unwrap();
    let r = relation(
        60,
        vec![(OSMObjectType::Way, 10, "part"), (OSMObjectType::Way, 11, "part")],
        vec![tag("type", "multipolygon")],
    );
    m.cache_object_into(&r).unwrap();
    m.commit_cache().unwrap();
    let g = m.get_geometry_as_wkt(&r).unwrap();
    assert_eq!(
        g.as_deref(),
        Some("MULTIPOLYGON(((0 0, 1 0, 1 1, 0 0)), ((5 5, 6 5, 6 6, 5 5)))")
    );
    m.close().unwrap();
}

#[test]
fn multipolygon_with_non_polygon_member_falls_back() {
    // One member renders as a polygon, the other as a linestring: the
    // simple path aborts and the relation falls back to a collection.
    let mut m = fresh_manager("mpfallback");
    m.cache_object_into(&node(1, 0, 0)).unwrap();
    m.cache_object_into(&node(2, 10000000, 0)).unwrap();
    m.cache_object_into(&node(3, 10000000, 10000000)).unwrap();
    let w1 = way(10, vec![1, 2, 3, 1], vec![tag("building", "yes")]);
    let w2 = way(11, vec![1, 2], vec![]);
    m.cache_object_into(&w1).unwrap();
    m.cache_object_into(&w2).unwrap();
    let r = relation(
        70,
        vec![(OSMObjectType::Way, 10, "part"), (OSMObjectType::Way, 11, "part")],
        vec![tag("type", "multipolygon")],
    );
    m.cache_object_into(&r).unwrap();
    m.commit_cache().unwrap();
    let g = m.get_geometry_as_wkt(&r).unwrap().expect("present");
    assert!(g.starts_with("GEOMETRYCOLLECTION("), "got {}", g);
    m.close().unwrap();
}

