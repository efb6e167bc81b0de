use ghdbscan::agglomerative::{HierarchicalParams, MergeState};
use ghdbscan::config::{batch_bounds, batch_count, VaDEConfig};
use ghdbscan::gpu_utils::GpuError;
use ghdbscan::hdbscan::HDBSCANParams;
use ghdbscan::kmeans::initial_centroid_indices;
use ghdbscan::knn::{majority_vote, KNNParams};
use ghdbscan::labels::{count_clusters, count_noise, ClusterResult};
use ghdbscan::metric::{parse_metric, DistanceMetric, Linkage};
use kiddo::{KdTree, SquaredEuclidean};

#[test]
fn test_knn_classification() {
    let data = [[0.0, 0.0], [0.1, 0.1], [10.0, 10.0], [10.1, 10.1]];
    let labels = vec![0, 0, 1, 1];
    let params = KNNParams::new(3);
    let mut tree: KdTree<f64, 2> = KdTree::new();
    for (idx, p) in data.iter().enumerate() {
        tree.add(p, idx as u64);
    }
    let predict = |q: [f64; 2]| {
        let indices: Vec<usize> =
            tree.nearest_n::<SquaredEuclidean>(&q, params.k).iter().map(|n| n.item as usize).collect();
        majority_vote(&indices, &labels)
    };
    assert_eq!(predict([0.05, 0.05]), 0);
    assert_eq!(predict([10.05, 10.05]), 1);
}

#[test]
fn majority_vote_cases() {
    let labels = vec![3, 3, 7, 7, 7, -1];
    assert_eq!(majority_vote(&vec![0, 2, 3, 4], &labels), 7);
    assert_eq!(majority_vote(&vec![0, 1, 5], &labels), 3);
    assert_eq!(majority_vote(&vec![], &labels), 0);
    assert_eq!(majority_vote(&vec![0, 2], &labels), 3);
    assert_eq!(majority_vote(&vec![2, 0], &labels), 7);
}

#[test]
fn knn_params_builder() {
    let p = KNNParams::new(4).with_metric(DistanceMetric::Manhattan);
    assert_eq!(p.k, 4);
    assert_eq!(p.metric, DistanceMetric::Manhattan);
    assert_eq!(KNNParams::new(2).metric, DistanceMetric::Euclidean);
}

#[test]
fn metric_names() {
    assert_eq!(parse_metric("euclidean"), Some(DistanceMetric::Euclidean));
    assert_eq!(parse_metric("manhattan"), Some(DistanceMetric::Manhattan));
    assert_eq!(parse_metric("cosine"), Some(DistanceMetric::Cosine));
    assert_eq!(parse_metric("Euclidean"), None);
    assert_eq!(parse_metric(""), None);
}

#[test]
fn hdbscan_params_default_min_samples() {
    let p = HDBSCANParams::new(5, None);
    assert_eq!(p.min_cluster_size, 5);
    assert_eq!(p.min_samples, 5);
    assert_eq!(p.metric, DistanceMetric::Euclidean);
    let p = HDBSCANParams::new(5, Some(2)).with_metric(DistanceMetric::Cosine);
    assert_eq!(p.min_samples, 2);
    assert_eq!(p.metric, DistanceMetric::Cosine);
}

#[test]
fn hierarchical_params_builder() {
    let p = HierarchicalParams::new(3);
    assert_eq!(p.n_clusters, 3);
    assert_eq!(p.linkage, Linkage::Ward);
    let p = p.with_linkage(Linkage::Single).with_metric(DistanceMetric::Manhattan);
    assert_eq!(p.linkage, Linkage::Single);
    assert_eq!(p.metric, DistanceMetric::Manhattan);
    assert_eq!(p.n_clusters, 3);
}

#[test]
fn merge_state_records_merges_and_labels() {
    let mut state = MergeState::new(4);
    assert_eq!(state.n_active, 4);
    state.merge(0, 1);
    assert_eq!(state.children, vec![[0, 1]]);
    assert_eq!(state.clusters[0], vec![0, 1]);
    assert_eq!(state.cluster_ids[0], 4);
    assert!(!state.active[1]);
    state.merge(2, 3);
    assert_eq!(state.children, vec![[0, 1], [2, 3]]);
    assert_eq!(state.n_active, 2);
    assert_eq!(state.labels(), vec![0, 0, 1, 1]);
    state.merge(0, 2);
    assert_eq!(state.children[2], [4, 5]);
    assert_eq!(state.next_cluster_id, 7);
    assert_eq!(state.labels(), vec![0, 0, 0, 0]);
}

#[test]
fn merge_state_labels_follow_slot_order() {
    let mut state = MergeState::new(3);
    state.merge(2, 0);
    assert_eq!(state.labels(), vec![1, 0, 1]);
}

#[test]
fn vade_config_defaults_and_builders() {
    let config = VaDEConfig::new(784, 10, 10);
    assert_eq!(config.input_dim, 784);
    assert_eq!(config.latent_dim, 10);
    assert_eq!(config.n_clusters, 10);
    assert_eq!(config.encoder_hidden, vec![500, 500, 2000]);
    assert_eq!(config.decoder_hidden, vec![2000, 500, 500]);
    let config = config.with_encoder_hidden(vec![32]).with_decoder_hidden(vec![16, 8]);
    assert_eq!(config.encoder_hidden, vec![32]);
    assert_eq!(config.decoder_hidden, vec![16, 8]);
    assert_eq!(config.input_dim, 784);
}

#[test]
fn batches_cover_the_samples() {
    assert_eq!(batch_count(100, 32), 4);
    assert_eq!(batch_count(96, 32), 3);
    assert_eq!(batch_count(0, 32), 0);
    assert_eq!(batch_count(usize::MAX, 1), usize::MAX);
    assert_eq!(batch_bounds(100, 32, 0), (0, 32));
    assert_eq!(batch_bounds(100, 32, 3), (96, 4));
}

#[test]
fn initial_indices_are_distinct() {
    let chosen = initial_centroid_indices(10, 4, Some(42)).unwrap();
    assert_eq!(chosen.len(), 4);
    for (a, &x) in chosen.iter().enumerate() {
        assert!(x < 10);
        for &y in &chosen[a + 1..] {
            assert_ne!(x, y);
        }
    }
    let again = initial_centroid_indices(10, 4, Some(42)).unwrap();
    assert_eq!(chosen, again);
    let all = initial_centroid_indices(3, 3, None).expect("operating system entropy");
    let mut sorted = all.clone();
    sorted.sort();
    assert_eq!(sorted, vec![0, 1, 2]);
    assert!(initial_centroid_indices(0, 0, None).expect("operating system entropy").is_empty());
}

#[test]
fn label_counts() {
    assert_eq!(count_clusters(&vec![-1, 0, 2, 1]), 3);
    assert_eq!(count_clusters(&vec![-1, -1]), 0);
    assert_eq!(count_clusters(&vec![]), 0);
    assert_eq!(count_noise(&vec![-1, 0, -1, 3]), 2);
    let r = ClusterResult { labels: vec![0, -1, 1, 1], core_points: vec![true, false, true, true] };
    assert_eq!(r.n_clusters(), 2);
    assert_eq!(r.n_noise(), 1);
}

#[test]
fn gpu_error_variants() {
    let e = GpuError::DeviceRequestFailed("lost".to_string());
    assert!(matches!(e, GpuError::DeviceRequestFailed(ref m) if m == "lost"));
    assert!(matches!(GpuError::AdapterRequestFailed, GpuError::AdapterRequestFailed));
}
