use pmd_flow::{Dictionary, FlowData, FlowDataError, FlowDataValue, Floor, Timeline};

#[test]
fn value_getters() {
    let s = FlowDataValue::Str(String::from("abc"));
    assert_eq!(s.get_string(), Some(String::from("abc")));
    assert_eq!(s.get_dicid(), None);
    assert_eq!(s.get_vecid(), None);
    let d = FlowDataValue::RefDic(7);
    assert_eq!(d.get_string(), None);
    assert_eq!(d.get_dicid(), Some(7));
    assert_eq!(d.get_vecid(), None);
    let v = FlowDataValue::RefVec(9);
    assert_eq!(v.get_vecid(), Some(9));
    assert_eq!(v.get_dicid(), None);
}

#[test]
fn dictionary_last_write_wins() {
    let mut d = Dictionary::new();
    d.insert(String::from("a"), FlowDataValue::Str(String::from("1")));
    d.insert(String::from("b"), FlowDataValue::Str(String::from("2")));
    d.insert(String::from("a"), FlowDataValue::Str(String::from("3")));
    assert_eq!(d.len(), 2);
    assert_eq!(d.get("a"), Some(&FlowDataValue::Str(String::from("3"))));
    assert_eq!(d.get("b"), Some(&FlowDataValue::Str(String::from("2"))));
    assert_eq!(d.get("c"), None);
    assert!(d.contains_key("a"));
    assert!(!d.contains_key("c"));
    // the overwritten key kept its position
    let first = d.entry_at(0).unwrap();
    assert_eq!(first.0, "a");
    assert!(d.entry_at(2).is_none());
}

#[test]
fn idname_must_be_string() {
    let mut flow = FlowData::default();
    let mut d = Dictionary::new();
    d.insert(String::from("idname"), FlowDataValue::RefDic(0));
    let err = flow.push_dictionary(d).unwrap_err();
    assert!(matches!(err, FlowDataError::IDNameNotString(FlowDataValue::RefDic(0))));
    assert_eq!(flow.dictionary_len(), 0);
}

#[test]
fn idname_string_is_accepted() {
    let mut flow = FlowData::default();
    let mut d = Dictionary::new();
    d.insert(String::from("idname"), FlowDataValue::Str(String::from("x")));
    assert_eq!(flow.push_dictionary(d).unwrap(), 0);
    assert_eq!(flow.dictionary_len(), 1);
}

#[test]
fn capacity_boundary_dictionaries() {
    let mut flow = FlowData::default();
    for i in 0..65536usize {
        let id = flow.push_dictionary(Dictionary::new()).unwrap();
        assert_eq!(id as usize, i);
    }
    assert_eq!(flow.dictionary_len(), 65536);
    let err = flow.push_dictionary(Dictionary::new()).unwrap_err();
    assert!(matches!(err, FlowDataError::TryFromIntError));
    assert_eq!(flow.dictionary_len(), 65536);
    // the backlink key of a fresh vector would no longer fit either
    let err = flow.push_vector(Vec::new()).unwrap_err();
    assert!(matches!(err, FlowDataError::TryFromIntError));
}

#[test]
fn capacity_boundary_vectors() {
    let mut flow = FlowData::default();
    for i in 0..65536usize {
        let id = flow.push_vector(Vec::new()).unwrap();
        assert_eq!(id as usize, i);
    }
    let err = flow.push_vector(Vec::new()).unwrap_err();
    assert!(matches!(err, FlowDataError::TryFromIntError));
    assert_eq!(flow.vector_len(), 65536);
}

#[test]
fn graph_getters() {
    let mut flow = FlowData::default();
    let mut d = Dictionary::new();
    d.insert(String::from("a"), FlowDataValue::Str(String::from("1")));
    flow.push_dictionary(d).unwrap();
    let mut v = Vec::new();
    v.push(FlowDataValue::RefDic(0));
    flow.push_vector(v).unwrap();
    assert!(flow.get_dictionary(0).is_some());
    assert!(flow.get_dictionary(1).is_none());
    assert!(flow.get_vector(0).is_some());
    assert!(flow.get_vector(1).is_none());
    {
        let d0 = flow.get_dictionary_mut(0).unwrap();
        d0.insert(String::from("a"), FlowDataValue::Str(String::from("2")));
    }
    assert_eq!(
        flow.get_dictionary(0).unwrap().get("a"),
        Some(&FlowDataValue::Str(String::from("2")))
    );
    assert!(flow.get_dictionary_mut(5).is_none());
    {
        let v0 = flow.get_vector_mut(0).unwrap();
        v0.push(FlowDataValue::RefVec(0));
    }
    assert_eq!(flow.get_vector(0).unwrap().len(), 2);
    assert!(flow.get_vector_mut(3).is_none());
}

fn graph_with(dic: Dictionary) -> (FlowData, usize) {
    let mut flow = FlowData::default();
    let id = flow.push_dictionary(dic).unwrap();
    (flow, id as usize)
}

#[test]
fn floor_reads_direct_string() {
    let mut d = Dictionary::new();
    d.insert(String::from("in"), FlowDataValue::Str(String::from("enter")));
    d.insert(String::from("out"), FlowDataValue::Str(String::from("leave")));
    let (flow, id) = graph_with(d);
    let f = Floor::new(&flow, id).unwrap();
    // only the shape matters here; the fields are read back through debug
    let shown = format!("{:?}", f);
    assert!(shown.contains("enter") && shown.contains("leave"));
}

#[test]
fn floor_reads_out_through_vector() {
    let mut d = Dictionary::new();
    d.insert(String::from("in"), FlowDataValue::Str(String::from("enter")));
    d.insert(String::from("out"), FlowDataValue::RefVec(0));
    let mut flow = FlowData::default();
    let mut v = Vec::new();
    v.push(FlowDataValue::Str(String::from("leave")));
    flow.push_vector(v).unwrap();
    let id = flow.push_dictionary(d).unwrap() as usize;
    let f = Floor::new(&flow, id).unwrap();
    let shown = format!("{:?}", f);
    assert!(shown.contains("leave"));
}

#[test]
fn floor_rejects_wrong_shapes() {
    let mut d = Dictionary::new();
    d.insert(String::from("in"), FlowDataValue::Str(String::from("enter")));
    let (flow, id) = graph_with(d);
    assert!(Floor::new(&flow, id).is_none());
    assert!(Floor::new(&flow, 17).is_none());
    let mut d2 = Dictionary::new();
    d2.insert(String::from("in"), FlowDataValue::RefDic(0));
    d2.insert(String::from("out"), FlowDataValue::Str(String::from("leave")));
    let (flow2, id2) = graph_with(d2);
    assert!(Floor::new(&flow2, id2).is_none());
}

#[test]
fn timeline_round_trips_through_graph() {
    let mut d = Dictionary::new();
    d.insert(String::from("start"), FlowDataValue::Str(String::from("0")));
    d.insert(String::from("finish"), FlowDataValue::Str(String::from("9")));
    let (flow, id) = graph_with(d);
    let t = Timeline::new(&flow, id).unwrap();
    let mut dest = FlowData::default();
    let new_id = t.generate(&mut dest).unwrap();
    assert_eq!(new_id, 0);
    let back = dest.get_dictionary(0).unwrap();
    assert_eq!(back.len(), 2);
    assert_eq!(back.get("start"), Some(&FlowDataValue::Str(String::from("0"))));
    assert_eq!(back.get("finish"), Some(&FlowDataValue::Str(String::from("9"))));
}

#[test]
fn timeline_rejects_non_string_values() {
    let mut d = Dictionary::new();
    d.insert(String::from("start"), FlowDataValue::RefDic(0));
    let (flow, id) = graph_with(d);
    assert!(Timeline::new(&flow, id).is_none());
    assert!(Timeline::new(&flow, 3).is_none());
}

#[test]
fn encode_needs_first_entities() {
    // a graph that satisfies the encoder's shape: one dictionary, one vector
    let mut flow = FlowData::default();
    flow.push_dictionary(Dictionary::new()).unwrap();
    let mut v = Vec::new();
    v.push(FlowDataValue::Str(String::from("")));
    flow.push_vector(v).unwrap();
    let bytes = flow.write().unwrap();
    let back = FlowData::new(&bytes).unwrap();
    assert_eq!(back.dictionary_len(), 1);
    assert_eq!(back.vector_len(), 1);
    assert_eq!(back.get_dictionary(0).unwrap().len(), 0);
}
