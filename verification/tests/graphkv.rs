use std::collections::HashMap;

use graphkv::codec::{create_vertex_key, decode_vertex, encode_context, encode_vertex};
use graphkv::context::DirtyEntry;
use graphkv::store::KvStore;
use graphkv::vertex::Vertex;
use graphkv::{GraphError, GraphTraversalSource};

fn fresh_graph() -> GraphTraversalSource {
    GraphTraversalSource::new(KvStore::new()).unwrap()
}

fn collect_all(t: &mut graphkv::vertex::VertexTraversal) -> Vec<Vertex> {
    let mut out = Vec::new();
    while let Some(v) = t.next().unwrap() {
        out.push(v);
    }
    out
}

#[test]
fn create_graph() {
    let _ = GraphTraversalSource::new(KvStore::new()).unwrap();
}

#[test]
fn add_vertices() {
    let mut graph = fresh_graph();

    let v1 = graph.add_vertex().next().unwrap().unwrap();
    let v2 = graph.add_vertex().next().unwrap().unwrap();

    let mut expected = HashMap::new();
    expected.insert(v1.id(), v1);
    expected.insert(v2.id(), v2);

    let mut t = graph.vertices();
    let mut actual: HashMap<usize, Vertex> = HashMap::new();
    while let Some(v) = t.next().unwrap() {
        actual.insert(v.id(), v);
    }

    assert_eq!(actual, expected);
}

#[test]
fn add_vertices_with_label() {
    let mut graph = fresh_graph();

    let v1 = graph.add_vertex_with_label("v1").next().unwrap().unwrap();
    let v2 = graph.add_vertex_with_label("v2").next().unwrap().unwrap();

    let mut expected = HashMap::new();
    expected.insert(v1.id(), v1);
    expected.insert(v2.id(), v2);

    let mut t = graph.vertices();
    let mut actual: HashMap<usize, Vertex> = HashMap::new();
    while let Some(v) = t.next().unwrap() {
        actual.insert(v.id(), v);
    }

    assert_eq!(actual, expected);
}

#[test]
fn get_vertices_with_label() {
    let mut graph = fresh_graph();

    let _v1 = graph.add_vertex().next().unwrap().unwrap();
    let v2 = graph.add_vertex_with_label("custom").next().unwrap().unwrap();
    let _v3 = graph.add_vertex().next().unwrap().unwrap();
    let v4 = graph.add_vertex_with_label("custom").next().unwrap().unwrap();

    let mut expected = HashMap::new();
    expected.insert(v2.id(), v2);
    expected.insert(v4.id(), v4);

    let mut t = graph.vertices_with_label("custom");
    let mut actual: HashMap<usize, Vertex> = HashMap::new();
    while let Some(v) = t.next().unwrap() {
        actual.insert(v.id(), v);
    }

    assert_eq!(actual, expected);
}

#[test]
fn get_vertex_with_id() {
    let mut graph = fresh_graph();

    let v1 = graph.add_vertex().next().unwrap().unwrap();
    let v2 = graph.add_vertex_with_label("custom").next().unwrap().unwrap();

    let mut actual1 = Vec::new();
    {
        let mut t1 = graph.vertex_with_id(v1.id());
        while let Some(v) = t1.next().unwrap() {
            actual1.push(v);
        }
    }
    assert_eq!(actual1, vec![v1]);

    let mut actual2 = Vec::new();
    {
        let mut t2 = graph.vertex_with_id(v2.id());
        while let Some(v) = t2.next().unwrap() {
            actual2.push(v);
        }
    }
    assert_eq!(actual2, vec![v2]);
}

#[test]
fn round_trip_api() {
    let mut graph = fresh_graph();
    let created = graph.add_vertex_with_label("kept").next().unwrap().unwrap();
    let fetched = graph.vertex_with_id(created.id()).next().unwrap().unwrap();
    assert_eq!(fetched, created);

    let store = graph.into_store();
    let mut reopened = GraphTraversalSource::new(store).unwrap();
    let fetched2 = reopened.vertex_with_id(created.id()).next().unwrap().unwrap();
    assert_eq!(fetched2, created);
}

#[test]
fn round_trip_with_properties() {
    let mut v = Vertex::new(7, "labeled".to_string());
    v.prop.push(("k1".to_string(), "v1".to_string()));
    v.prop.push(("k2".to_string(), "v2".to_string()));

    let decoded = decode_vertex(&encode_vertex(&v)).unwrap();
    assert_eq!(decoded, v);

    let mut store = KvStore::new();
    store.put(create_vertex_key(7), encode_vertex(&v));
    store.put(b"sys_context".to_vec(), encode_context(7));
    let mut graph = GraphTraversalSource::new(store).unwrap();
    assert_eq!(graph.last_sequence_number(), 7);
    let got = graph.vertex_with_id(7).next().unwrap().unwrap();
    assert_eq!(got, v);
}

#[test]
fn codec_exact_bytes() {
    let v = Vertex::new(1, "a".to_string());
    let bytes = encode_vertex(&v);
    let expected: Vec<u8> = vec![
        1, 0, 0, 0, 0, 0, 0, 0, // identifier
        1, 0, 0, 0, 0, 0, 0, 0, // label length
        97, // "a"
        0, 0, 0, 0, 0, 0, 0, 0, // property count
    ];
    assert_eq!(bytes, expected);
}

#[test]
fn codec_rejects_duplicate_property_keys() {
    let mut v = Vertex::new(3, "x".to_string());
    v.prop.push(("k".to_string(), "a".to_string()));
    v.prop.push(("k".to_string(), "b".to_string()));
    let bytes = encode_vertex(&v);
    assert!(decode_vertex(&bytes).is_none());
}

#[test]
fn vertex_key_format() {
    assert_eq!(create_vertex_key(0), b"vtx_0".to_vec());
    assert_eq!(create_vertex_key(7), b"vtx_7".to_vec());
    assert_eq!(create_vertex_key(10), b"vtx_10".to_vec());
    assert_eq!(create_vertex_key(905), b"vtx_905".to_vec());
}

#[test]
fn read_your_writes_before_flush() {
    let mut graph = fresh_graph();
    let mut t = graph.add_vertex_with_label("fresh");
    let v = t.next().unwrap().unwrap();
    assert_eq!(v.id(), 1);
    assert_eq!(v.label, "fresh".to_string());
    assert!(v.prop.is_empty());
    let written = t.flush();
    assert_eq!(written, 1);
}

#[test]
fn ids_unique_monotone() {
    let mut graph = fresh_graph();
    let mut ids: Vec<usize> = Vec::new();
    for _ in 0..5 {
        let v = graph.add_vertex().next().unwrap().unwrap();
        assert_eq!(graph.last_sequence_number(), v.id());
        ids.push(v.id());
    }
    for i in 0..ids.len() {
        for j in (i + 1)..ids.len() {
            assert!(ids[i] < ids[j]);
            assert_ne!(ids[i], ids[j]);
        }
    }

    let mut reopened = GraphTraversalSource::new(graph.into_store()).unwrap();
    assert_eq!(reopened.last_sequence_number(), 5);
    let v6 = reopened.add_vertex().next().unwrap().unwrap();
    assert_eq!(v6.id(), 6);
}

#[test]
fn flush_on_drop() {
    let mut graph = fresh_graph();
    {
        let _abandoned = graph.add_vertex_with_label("durable");
    }
    let v = graph.vertices_with_label("durable").next().unwrap().unwrap();
    assert_eq!(v.id(), 1);

    let mut reopened = GraphTraversalSource::new(graph.into_store()).unwrap();
    let got = reopened.vertex_with_id(1).next().unwrap().unwrap();
    assert_eq!(got.label, "durable".to_string());
}

#[test]
fn missing_id_is_empty() {
    let mut graph = fresh_graph();
    let _ = graph.add_vertex().next().unwrap().unwrap();
    assert_eq!(graph.vertex_with_id(999).next().unwrap(), None);
}

#[test]
fn idempotent_flush() {
    let mut graph = fresh_graph();
    let mut t = graph.add_vertex();
    assert_eq!(t.flush(), 1);
    assert_eq!(t.flush(), 0);
}

#[test]
fn single_traversal_is_single_shot() {
    let mut graph = fresh_graph();
    let id = graph.add_vertex().next().unwrap().unwrap().id();
    let mut t = graph.vertex_with_id(id);
    assert!(t.next().unwrap().is_some());
    assert_eq!(t.next().unwrap(), None);
}

#[test]
fn corrupt_counter_record() {
    let mut store = KvStore::new();
    store.put(b"sys_context".to_vec(), vec![1, 2, 3]);
    match GraphTraversalSource::new(store) {
        Err(e) => assert_eq!(e, GraphError::CorruptState),
        Ok(_) => panic!("a malformed counter record must be rejected"),
    }
}

#[test]
fn corrupt_vertex_record_scan() {
    let mut store = KvStore::new();
    store.put(b"vtx_1".to_vec(), vec![0xff]);
    let mut graph = GraphTraversalSource::new(store).unwrap();
    assert_eq!(graph.vertices().next(), Err(GraphError::Deserialization));
}

#[test]
fn corrupt_vertex_record_fetch() {
    let mut store = KvStore::new();
    store.put(b"vtx_1".to_vec(), vec![0xff]);
    let mut graph = GraphTraversalSource::new(store).unwrap();
    assert_eq!(graph.vertex_with_id(1).next(), Err(GraphError::Deserialization));
}

#[test]
fn fresh_graph_scans_empty() {
    let mut graph = fresh_graph();
    assert_eq!(graph.vertices().next().unwrap(), None);
}

#[test]
fn scan_follows_key_order() {
    let mut graph = fresh_graph();
    for _ in 0..11 {
        let _ = graph.add_vertex().next().unwrap().unwrap();
    }
    let mut t = graph.vertices();
    let yielded: Vec<usize> = collect_all(&mut t).iter().map(|v| v.id()).collect();
    // Keys carry unpadded decimal identifiers, so the ascending key order
    // is the decimal-string order, not the numeric one.
    assert_eq!(yielded, vec![1, 10, 11, 2, 3, 4, 5, 6, 7, 8, 9]);
}

#[test]
fn dirty_entry_starts_dirty() {
    let e = DirtyEntry::new(42u32);
    assert!(e.dirty);
    assert_eq!(e.entry, 42);
}

#[test]
fn labels_default_and_custom() {
    let mut graph = fresh_graph();
    let v1 = graph.add_vertex().next().unwrap().unwrap();
    assert_eq!(v1.label, "vertex".to_string());
    let v2 = graph.add_vertex_with_label("custom").next().unwrap().unwrap();
    assert_eq!(v2.label, "custom".to_string());
}

#[test]
fn label_filter_exact_pair() {
    let mut graph = fresh_graph();
    for label in ["v1", "custom", "v1", "custom"] {
        let _ = graph.add_vertex_with_label(label).next().unwrap().unwrap();
    }
    let mut t = graph.vertices_with_label("custom");
    let got = collect_all(&mut t);
    assert_eq!(got.len(), 2);
    assert_eq!(got[0].id(), 2);
    assert_eq!(got[1].id(), 4);
    assert!(got.iter().all(|v| v.label == "custom"));
}
