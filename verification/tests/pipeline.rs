use mindmap::{
    cosine_milli, layout_phase, merge_similar_concepts, sanitize_priors, Concept, LayoutParams,
    SceneStore, Vec3,
};

fn concept(text: &str, importance: u32) -> Concept {
    Concept { concept: text.to_string(), importance }
}

fn zero_proj(n: usize) -> Vec<Vec3> {
    (0..n).map(|_| Vec3 { x: 0, y: 0, z: 0 }).collect()
}

#[test]
fn test_identical_embeddings_one_group() {
    // Two concepts with the same embedding merge into a single group with
    // both members, compact id 0 and no connections.
    let concepts = vec![concept("machine learning", 900), concept("neural networks", 700)];
    let embeddings = vec![vec![1000, 0, 0], vec![1000, 0, 0]];
    let merged = merge_similar_concepts(&concepts, &embeddings, 700).unwrap();
    assert_eq!(merged.len(), 1);
    assert_eq!(merged[0].members.len(), 2);
    assert_eq!(merged[0].members[0], "machine learning");
    assert_eq!(merged[0].members[1], "neural networks");
    assert_eq!(merged[0].root, 0);

    let proj = zero_proj(merged.len());
    let params = LayoutParams::default();
    let (groups, _energies) = layout_phase(&merged, &proj, &params).unwrap();
    assert_eq!(groups.len(), 1);
    assert_eq!(groups[0].group_id, 0);
    assert!(groups[0].connections.is_empty());
    assert!(groups[0].importance_score >= 100);
    assert_eq!(groups[0].concepts.len(), 2);
}

#[test]
fn test_orthogonal_embeddings_two_groups() {
    // Orthogonal embeddings stay apart: two groups, no positive
    // similarity, distinct positions.
    let concepts = vec![concept("alpha", 500), concept("beta", 500)];
    let embeddings = vec![vec![1000, 0, 0], vec![0, 1000, 0]];
    let merged = merge_similar_concepts(&concepts, &embeddings, 700).unwrap();
    assert_eq!(merged.len(), 2);
    assert_eq!(merged[0].members.len(), 1);
    assert_eq!(merged[1].members.len(), 1);

    let proj = zero_proj(merged.len());
    let params = LayoutParams::default();
    let (groups, _energies) = layout_phase(&merged, &proj, &params).unwrap();
    assert_eq!(groups.len(), 2);
    assert_eq!(groups[0].group_id, 0);
    assert_eq!(groups[1].group_id, 1);
    assert!(groups[0].connections.is_empty());
    assert!(groups[1].connections.is_empty());
    assert_ne!(groups[0].reduced_embedding, groups[1].reduced_embedding);
}

#[test]
fn test_positive_similarity_connections_symmetric() {
    // Three groups with pairwise positive but sub-threshold similarity:
    // every connection is mutual.
    let concepts = vec![concept("a", 500), concept("b", 500), concept("c", 500)];
    let embeddings = vec![
        vec![1000, 0, 100],
        vec![100, 1000, 0],
        vec![0, 100, 1000],
    ];
    let merged = merge_similar_concepts(&concepts, &embeddings, 700).unwrap();
    assert_eq!(merged.len(), 3);
    let proj = zero_proj(merged.len());
    let params = LayoutParams::default();
    let (groups, _energies) = layout_phase(&merged, &proj, &params).unwrap();
    for g in &groups {
        for &j in &g.connections {
            assert!(
                groups[j].connections.contains(&g.group_id),
                "connection {} -> {} is not mutual",
                g.group_id,
                j
            );
        }
    }
    // With these embeddings every pair has positive cosine.
    assert_eq!(groups[0].connections, vec![1, 2]);
    assert_eq!(groups[1].connections, vec![0, 2]);
    assert_eq!(groups[2].connections, vec![0, 1]);
}

#[test]
fn test_merger_partitions_indices() {
    // Member counts add up to the input count and members are disjoint.
    let concepts = vec![
        concept("a", 500),
        concept("b", 500),
        concept("c", 500),
        concept("d", 500),
    ];
    let embeddings = vec![
        vec![1000, 0, 0],
        vec![990, 100, 0],
        vec![0, 1000, 0],
        vec![0, 990, 100],
    ];
    let merged = merge_similar_concepts(&concepts, &embeddings, 700).unwrap();
    let total: usize = merged.iter().map(|g| g.member_indices.len()).sum();
    assert_eq!(total, concepts.len());
    let mut seen = vec![false; concepts.len()];
    for g in &merged {
        for &idx in &g.member_indices {
            assert!(!seen[idx], "index {} appears in two groups", idx);
            seen[idx] = true;
        }
    }
    assert!(seen.iter().all(|&s| s));
}

#[test]
fn test_merge_rejects_bad_shapes() {
    let concepts = vec![concept("a", 500)];
    // Mismatched lengths.
    assert!(merge_similar_concepts(&concepts, &vec![], 700).is_err());
    // Zero-dimensional embedding.
    assert!(merge_similar_concepts(&concepts, &vec![vec![]], 700).is_err());
    // Non-uniform dimensions.
    let two = vec![concept("a", 500), concept("b", 500)];
    assert!(merge_similar_concepts(&two, &vec![vec![1000], vec![1000, 0]], 700).is_err());
}

#[test]
fn test_corrupt_prior_row_skipped() {
    // A zero-dimensional stored embedding is dropped, not fatal.
    let priors = vec![
        (concept("left", 500), vec![1000, 0, 0]),
        (concept("broken", 500), vec![]),
        (concept("right", 500), vec![0, 0, 1000]),
    ];
    let (kept_concepts, kept_embeddings) = sanitize_priors(priors);
    assert_eq!(kept_concepts.len(), 2);
    assert_eq!(kept_embeddings.len(), 2);
    assert_eq!(kept_concepts[0].concept, "left");
    assert_eq!(kept_concepts[1].concept, "right");
}

#[test]
fn test_cosine_extremes() {
    let a = vec![1000, 0, 0];
    let b = vec![1000, 0, 0];
    let c = vec![0, 1000, 0];
    let d = vec![-1000, 0, 0];
    assert_eq!(cosine_milli(&a, &b), 1000);
    assert_eq!(cosine_milli(&a, &c), 0);
    assert_eq!(cosine_milli(&a, &d), -1000);
}

#[test]
fn test_energy_trend_decreases() {
    // On a spread of points the simulation settles: the median step energy
    // of the later half is below the earlier half's.
    let concepts: Vec<Concept> = (0..8).map(|i| concept(&format!("c{}", i), 500)).collect();
    // A deterministic pseudo-random spread of embeddings.
    let mut state: u64 = 12345;
    let mut next = || {
        state = state.wrapping_mul(6364136223846793005).wrapping_add(1442695040888963407);
        ((state >> 33) % 2001) as i64 - 1000
    };
    let embeddings: Vec<Vec<i64>> = (0..8).map(|_| (0..4).map(|_| next()).collect()).collect();
    let merged = merge_similar_concepts(&concepts, &embeddings, 1000).unwrap();
    assert!(merged.len() >= 8 - 2);
    let proj: Vec<Vec3> = merged
        .iter()
        .map(|g| Vec3 {
            x: g.avg_embedding[0],
            y: g.avg_embedding[1],
            z: g.avg_embedding[2],
        })
        .collect();
    // A gentler damping keeps the descent from overshooting, so the
    // settling trend is visible in the energy trace.
    let mut params = LayoutParams::default();
    params.damping = 300;
    let (_groups, energies) = layout_phase(&merged, &proj, &params).unwrap();
    assert!(energies.len() >= 2);
    let median = |xs: &[u64]| -> u64 {
        let mut v = xs.to_vec();
        v.sort_unstable();
        v[v.len() / 2]
    };
    let half = energies.len() / 2;
    let early = median(&energies[..half]);
    let late = median(&energies[half..]);
    assert!(late < early, "energy did not settle: early {} late {}", early, late);
}

#[test]
fn test_scene_round_trip() {
    // Save a list of three groups and read back the exact same list.
    let concepts = vec![concept("a", 500), concept("b", 600), concept("c", 700)];
    let embeddings = vec![
        vec![1000, 0, 0],
        vec![0, 1000, 0],
        vec![0, 0, 1000],
    ];
    let merged = merge_similar_concepts(&concepts, &embeddings, 700).unwrap();
    let proj = zero_proj(merged.len());
    let params = LayoutParams::default();
    let (groups, _energies) = layout_phase(&merged, &proj, &params).unwrap();
    assert_eq!(groups.len(), 3);

    let expected: Vec<(Vec<String>, Vec3, Vec<usize>, u64, usize)> = groups
        .iter()
        .map(|g| {
            (
                g.concepts.clone(),
                g.reduced_embedding,
                g.connections.clone(),
                g.importance_score,
                g.group_id,
            )
        })
        .collect();

    let mut store = SceneStore::new();
    let id = store.save_scene(groups);
    let read = store.get_scene(id).expect("scene should be present");
    assert_eq!(read.len(), expected.len());
    for (g, e) in read.iter().zip(expected.iter()) {
        assert_eq!(g.concepts, e.0);
        assert_eq!(g.reduced_embedding, e.1);
        assert_eq!(g.connections, e.2);
        assert_eq!(g.importance_score, e.3);
        assert_eq!(g.group_id, e.4);
    }
    assert!(store.get_scene(id + 1).is_none());
}
