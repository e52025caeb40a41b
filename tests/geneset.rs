use kira_proteoqc_core::geneset::{find_row, resolve_collection, resolve_def, GenesetCollection, GenesetDef};

fn names(v: &[&str]) -> Vec<String> {
    v.iter().map(|s| s.to_string()).collect()
}

#[test]
fn geneset_resolution() {
    let genes = names(&["G1", "G2", "G3", "G2"]);
    let def = GenesetDef { id: "set_a".to_string(), axis: 'A', genes: names(&["G3", "X", "G1", "G3", "G2"]) };
    let r = resolve_def(&def, &genes);
    assert_eq!(r.id, "set_a");
    assert_eq!(r.axis, 'A');
    assert_eq!(r.gene_ids, vec![0, 1, 2]);
    assert_eq!(r.missing, vec!["X"]);
    assert_eq!(r.total, 5);
}

#[test]
fn duplicate_gene_names_keep_first_row() {
    let genes = names(&["A", "B", "A"]);
    assert_eq!(find_row(&genes, &"A".to_string()), Some(0));
    assert_eq!(find_row(&genes, &"B".to_string()), Some(1));
    assert_eq!(find_row(&genes, &"C".to_string()), None);
}

#[test]
fn resolves_whole_collection_in_order() {
    let genes = names(&["G1", "G2"]);
    let c = GenesetCollection {
        version: "v1".to_string(),
        defs: vec![
            GenesetDef { id: "a".to_string(), axis: 'A', genes: names(&["G2"]) },
            GenesetDef { id: "b".to_string(), axis: 'B', genes: names(&["Q", "R"]) },
        ],
        resolved: Vec::new(),
    };
    let r = resolve_collection(c, &genes);
    assert_eq!(r.version, "v1");
    assert_eq!(r.resolved.len(), 2);
    assert_eq!(r.resolved[0].gene_ids, vec![1]);
    assert!(r.resolved[1].gene_ids.is_empty());
    assert_eq!(r.resolved[1].missing, vec!["Q", "R"]);
}
