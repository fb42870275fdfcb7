use osm_api::codec::{decode_object_str, encode_object};
use osm_api::object::{unique_reference_of, OSMObject, OSMObjectSpecifics, OSMObjectType, OSMRelationMember, Tag};
use osm_api::queries::{format_data_retrieval, format_differential_query, format_query, interpreter_url, kill_queries_url, queries_for_ids, translate_type_shortcut};
use osm_api::utils::{connect_polygon_segments, coord_to_string, coords_to_text, ensure_closed, object_should_have_closed_geometry};

fn tag(k: &str, v: &str) -> Tag {
    Tag { key: k.to_string(), value: v.to_string() }
}

fn node(id: u64, lon7: i64, lat7: i64, tags: Vec<Tag>) -> OSMObject {
    OSMObject {
        id,
        timestamp: "2020-01-01T00:00:00Z".to_string(),
        version: 1,
        changeset: 10,
        tags,
        specifics: OSMObjectSpecifics::Node { lon7, lat7 },
    }
}

fn way(id: u64, nodes: Vec<u64>, tags: Vec<Tag>) -> OSMObject {
    OSMObject {
        id,
        timestamp: "2020-01-01T00:00:00Z".to_string(),
        version: 1,
        changeset: 10,
        tags,
        specifics: OSMObjectSpecifics::Way { nodes },
    }
}

#[test]
fn unique_ids_have_kind_letter() {
    let n = node(42, 0, 0, vec![]);
    assert_eq!(n.unique_id(), "n42");
    assert_eq!(unique_reference_of(OSMObjectType::Way, 17), "w17");
    assert_eq!(unique_reference_of(OSMObjectType::Relation, 9), "r9");
}

#[test]
fn tags_read_and_write() {
    let mut n = node(1, 0, 0, vec![tag("name", "X")]);
    assert_eq!(n.tag("name").map(|s| s.as_str()), Some("X"));
    assert_eq!(n.tag("role"), None);
    n.set_tag("role", "outer".to_string());
    assert_eq!(n.tag("role").map(|s| s.as_str()), Some("outer"));
    n.set_tag("name", "Y".to_string());
    assert_eq!(n.tag("name").map(|s| s.as_str()), Some("Y"));
}

#[test]
fn codec_round_trip_node() {
    let n = node(7, 100000000, -200000000, vec![tag("name", "A b:c"), tag("x", "")]);
    let enc = encode_object(&n);
    assert_eq!(enc, encode_object(&n), "encoding is byte-stable");
    let back = decode_object_str(enc.as_str()).expect("decodes");
    assert_eq!(back.id, 7);
    assert_eq!(back.timestamp, n.timestamp);
    assert_eq!(back.version, 1);
    assert_eq!(back.changeset, 10);
    assert_eq!(back.tag("name").map(|s| s.as_str()), Some("A b:c"));
    match back.specifics {
        OSMObjectSpecifics::Node { lon7, lat7 } => {
            assert_eq!(lon7, 100000000);
            assert_eq!(lat7, -200000000);
        },
        _ => panic!("wrong kind"),
    }
}

#[test]
fn codec_round_trip_relation() {
    let r = OSMObject {
        id: 9,
        timestamp: "t".to_string(),
        version: 3,
        changeset: 4,
        tags: vec![tag("type", "multipolygon")],
        specifics: OSMObjectSpecifics::Relation {
            members: vec![
                OSMRelationMember { m_type: OSMObjectType::Way, ref_id: 11, role: "outer".to_string() },
                OSMRelationMember { m_type: OSMObjectType::Node, ref_id: 5, role: "".to_string() },
            ],
        },
    };
    let enc = encode_object(&r);
    let back = decode_object_str(enc.as_str()).expect("decodes");
    match back.specifics {
        OSMObjectSpecifics::Relation { members } => {
            assert_eq!(members.len(), 2);
            assert_eq!(members[0].ref_id, 11);
            assert_eq!(members[0].role, "outer");
            assert!(matches!(members[1].m_type, OSMObjectType::Node));
        },
        _ => panic!("wrong kind"),
    }
}

#[test]
fn codec_rejects_garbage() {
    assert!(decode_object_str("nonsense").is_none());
    assert!(decode_object_str("").is_none());
}

#[test]
fn coordinates_render_like_decimals() {
    assert_eq!(coord_to_string(100000000), "10");
    assert_eq!(coord_to_string(-5000000), "-0.5");
    assert_eq!(coord_to_string(123456789), "12.3456789");
    assert_eq!(coord_to_string(0), "0");
    assert_eq!(coord_to_string(505000000), "50.5");
}

#[test]
fn coords_text_joins_pairs() {
    let cs = vec![(0i64, 0i64), (10000000, 0)];
    assert_eq!(coords_to_text(&cs), "0 0, 1 0");
}

#[test]
fn ensure_closed_appends_first_point() {
    let mut cs = vec![(0i64, 0i64), (10000000, 0), (10000000, 10000000)];
    ensure_closed(&mut cs);
    assert_eq!(cs.len(), 4);
    assert_eq!(cs[3], (0, 0));
    let before = cs.clone();
    ensure_closed(&mut cs);
    assert_eq!(cs, before, "already closed rings stay put");
}

#[test]
fn closed_geometry_heuristic() {
    assert!(object_should_have_closed_geometry(&way(1, vec![], vec![tag("area", "yes")])));
    assert!(object_should_have_closed_geometry(&way(1, vec![], vec![tag("building", "hut")])));
    assert!(!object_should_have_closed_geometry(&way(1, vec![], vec![tag("highway", "path")])));
}

#[test]
fn stitching_joins_shared_endpoints() {
    let mut segs = vec![
        vec![(0i64, 0i64), (3, 0), (3, 3)],
        vec![(3i64, 3i64), (0, 3), (0, 0)],
    ];
    connect_polygon_segments(&mut segs);
    assert_eq!(segs.len(), 1);
    assert_eq!(segs[0], vec![(0, 0), (3, 0), (3, 3), (0, 3), (0, 0)]);
}

#[test]
fn stitching_is_idempotent() {
    let mut segs = vec![
        vec![(0i64, 0i64), (3, 0), (3, 3)],
        vec![(3i64, 3i64), (0, 3), (0, 0)],
        vec![(9i64, 9i64), (8, 9), (9, 8), (9, 9)],
    ];
    connect_polygon_segments(&mut segs);
    let once = segs.clone();
    connect_polygon_segments(&mut segs);
    assert_eq!(segs, once);
}

#[test]
fn stitching_reverses_when_needed() {
    let mut segs = vec![
        vec![(0i64, 0i64), (1, 0)],
        vec![(2i64, 0i64), (1, 0)],
    ];
    connect_polygon_segments(&mut segs);
    assert_eq!(segs.len(), 1);
    assert_eq!(segs[0], vec![(0, 0), (1, 0), (2, 0)]);
}

#[test]
fn query_templates() {
    assert_eq!(translate_type_shortcut('n'), "node");
    assert_eq!(translate_type_shortcut('w'), "way");
    assert_eq!(translate_type_shortcut('r'), "relation");
    assert_eq!(format_query(900, "q"), "[out:json][timeout:900];q;out meta;");
    assert_eq!(
        format_data_retrieval("Town"),
        "((area[\"name\"=\"Town\"];node(area);area[\"name\"=\"Town\"];way(area);area[\"name\"=\"Town\"];rel(area);>>;);>>;)"
    );
    assert_eq!(
        format_differential_query("Town", "way", "2020-01-01T00:00:00Z"),
        "[out:xml][timeout:900][adiff:\"2020-01-01T00:00:00Z\"];((area[\"name\"=\"Town\"];way(area);>>;);>>;);out meta;"
    );
}

#[test]
fn id_lookup_queries_group_by_kind() {
    let ids = vec!["n1".to_string(), "w2".to_string(), "n3".to_string(), "r4".to_string()];
    let qs = queries_for_ids(&ids);
    assert_eq!(
        qs,
        vec![
            "[out:json][timeout:900];node(id:1,3);out meta;".to_string(),
            "[out:json][timeout:900];way(id:2);out meta;".to_string(),
            "[out:json][timeout:900];relation(id:4);out meta;".to_string(),
        ]
    );
}

#[test]
fn id_lookup_queries_empty() {
    let ids: Vec<String> = vec![];
    let qs = queries_for_ids(&ids);
    assert!(qs.is_empty());
}

#[test]
fn request_urls() {
    assert_eq!(
        interpreter_url("https://example.test/api", "q"),
        "https://example.test/api/interpreter?data=q"
    );
    assert_eq!(
        kill_queries_url("https://example.test/api"),
        "https://example.test/api/kill_my_queries"
    );
}
