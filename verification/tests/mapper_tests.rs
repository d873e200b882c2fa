use bess_economics::settlement_mapper::ResourceMapping;
use bess_economics::settlement_mapper::SettlementMapper;

#[test]
fn test_mapping_creation() {
    let mut mapper = SettlementMapper::new();

    let mapping = ResourceMapping {
        resource_name: "TEST_BESS".to_string(),
        unit_name: "BESS1".to_string(),
        settlement_point: "TEST_NODE_RN".to_string(),
        capacity_kw: Some(100_000),
        duration_hours: Some(2),
    };

    mapper.add_mapping(mapping);

    assert_eq!(
        mapper.get_settlement_point("TEST_BESS"),
        Some("TEST_NODE_RN")
    );
    assert_eq!(mapper.get_settlement_point("BESS1"), Some("TEST_NODE_RN"));

    let bess_list = mapper.get_all_bess();
    assert_eq!(bess_list.len(), 1);
}

fn mapping(resource: &str, unit: &str, point: &str) -> ResourceMapping {
    ResourceMapping {
        resource_name: resource.to_string(),
        unit_name: unit.to_string(),
        settlement_point: point.to_string(),
        capacity_kw: None,
        duration_hours: None,
    }
}

#[test]
fn unknown_names_are_not_found() {
    let mut mapper = SettlementMapper::new();
    assert_eq!(mapper.get_settlement_point("X"), None);
    assert!(mapper.get_mapping("X").is_none());
    assert!(mapper.get_all_bess().is_empty());
    mapper.add_mapping(mapping("R1", "U1", "NODE_1"));
    assert_eq!(mapper.get_settlement_point("X"), None);
    assert_eq!(mapper.get_settlement_point("R1"), Some("NODE_1"));
    assert_eq!(mapper.get_mapping("U1").unwrap().resource_name, "R1");
}

#[test]
fn a_second_mapping_replaces_the_first_under_the_same_name() {
    let mut mapper = SettlementMapper::new();
    mapper.add_mapping(mapping("R1", "U1", "NODE_1"));
    mapper.add_mapping(mapping("R1", "U2", "NODE_2"));
    assert_eq!(mapper.get_settlement_point("R1"), Some("NODE_2"));
    assert_eq!(mapper.get_settlement_point("U2"), Some("NODE_2"));
    // the old unit name still leads to the old mapping
    assert_eq!(mapper.get_settlement_point("U1"), Some("NODE_1"));
}

#[test]
fn batteries_are_told_by_their_unit_name() {
    let mut mapper = SettlementMapper::new();
    mapper.add_mapping(mapping("WIND_A", "WIND1", "NODE_1"));
    mapper.add_mapping(mapping("ALPHA", "ALPHA_BESS", "NODE_2"));
    mapper.add_mapping(mapping("BETA", "BETA_ESS2", "NODE_3"));
    mapper.add_mapping(mapping("GAMMA", "ESS", "NODE_4"));
    mapper.add_mapping(mapping("DELTA", "BES_S", "NODE_5"));
    mapper.add_mapping(mapping("EPS", "ES", "NODE_6"));
    mapper.add_mapping(mapping("ZETA", "", "NODE_7"));
    mapper.add_mapping(mapping("SAME_ESS", "SAME_ESS", "NODE_8"));
    let names: Vec<&str> = mapper.get_all_bess().iter().map(|m| m.resource_name.as_str()).collect();
    assert_eq!(names, vec!["ALPHA", "BETA", "GAMMA", "SAME_ESS"]);
}

#[test]
fn battery_specs_reach_only_the_name_given() {
    let mut mapper = SettlementMapper::new();
    mapper.add_mapping(mapping("R1", "U1", "NODE_1"));
    mapper.set_battery_specs("R1", 50_000, 4);
    mapper.set_battery_specs("NOBODY", 1, 1);
    let by_resource = mapper.get_mapping("R1").unwrap();
    assert_eq!(by_resource.capacity_kw, Some(50_000));
    assert_eq!(by_resource.duration_hours, Some(4));
    assert_eq!(by_resource.settlement_point, "NODE_1");
    let by_unit = mapper.get_mapping("U1").unwrap();
    assert_eq!(by_unit.capacity_kw, None);
    assert!(mapper.get_mapping("NOBODY").is_none());
}

#[test]
fn resource_nodes_are_listed_under_unit_and_node() {
    let mut mapper = SettlementMapper::new();
    mapper.add_resource_node("NODE_RN", "UNIT_BESS1");
    assert_eq!(mapper.get_settlement_point("UNIT_BESS1"), Some("NODE_RN"));
    assert_eq!(mapper.get_settlement_point("NODE_RN"), Some("NODE_RN"));
    let m = mapper.get_mapping("NODE_RN").unwrap();
    assert_eq!(m.resource_name, "UNIT_BESS1");
    assert_eq!(m.unit_name, "UNIT_BESS1");
    assert_eq!(m.capacity_kw, None);
    assert_eq!(mapper.get_all_bess().len(), 1);
}

#[test]
fn a_thousand_names_are_each_found_again() {
    let mut mapper = SettlementMapper::new();
    for i in 0..1000 {
        let name = format!("UNIT_{i}");
        let point = format!("NODE_{i}");
        mapper.add_mapping(mapping(&name, &format!("{name}_BESS1"), &point));
    }
    for i in 0..1000 {
        let name = format!("UNIT_{i}");
        let point = format!("NODE_{i}");
        assert_eq!(mapper.get_settlement_point(&name), Some(point.as_str()));
        assert_eq!(mapper.get_settlement_point(&format!("{name}_BESS1")), Some(point.as_str()));
    }
    assert_eq!(mapper.get_settlement_point("UNIT_1000"), None);
    mapper.add_mapping(mapping("UNIT_7", "UNIT_7_BESS1", "ELSEWHERE"));
    assert_eq!(mapper.get_settlement_point("UNIT_7"), Some("ELSEWHERE"));
    assert_eq!(mapper.get_settlement_point("UNIT_7_BESS1"), Some("ELSEWHERE"));
    assert_eq!(mapper.get_settlement_point("UNIT_8"), Some("NODE_8"));
    assert_eq!(mapper.get_all_bess().len(), 1000);
}
