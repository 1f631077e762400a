use sensor_processor::sensors::{
    cluster_points, extract_rgb, obstacle_clusters, MIN_OBSTACLE_POINTS, NEUTRAL_GREY,
};

fn relation(n: usize, pairs: &[(usize, usize)]) -> Vec<Vec<bool>> {
    let mut close = vec![vec![false; n]; n];
    for i in 0..n {
        close[i][i] = true;
    }
    for &(a, b) in pairs {
        close[a][b] = true;
        close[b][a] = true;
    }
    close
}

#[test]
fn rgb_from_leading_bytes() {
    assert_eq!(extract_rgb(&[10, 20, 30, 40]), (10, 20, 30));
    assert_eq!(extract_rgb(&[1, 2, 3]), (1, 2, 3));
}

#[test]
fn rgb_of_short_frame_is_grey() {
    assert_eq!(extract_rgb(&[]), (128, 128, 128));
    assert_eq!(extract_rgb(&[255, 0]), (NEUTRAL_GREY, NEUTRAL_GREY, NEUTRAL_GREY));
}

#[test]
fn clusters_of_empty_cloud() {
    let close: Vec<Vec<bool>> = Vec::new();
    assert!(cluster_points(&close).is_empty());
}

#[test]
fn lone_points_form_singletons() {
    let close = relation(3, &[]);
    assert_eq!(cluster_points(&close), vec![vec![0], vec![1], vec![2]]);
}

#[test]
fn seed_takes_only_points_close_to_itself() {
    // 0-1 and 1-2 are close, 0-2 are not: 2 is not taken by seed 0.
    let close = relation(3, &[(0, 1), (1, 2)]);
    assert_eq!(cluster_points(&close), vec![vec![0, 1], vec![2]]);
}

#[test]
fn earlier_seed_claims_shared_points() {
    // 3 is close to both 0 and 1; 0 opens first and takes it.
    let close = relation(5, &[(0, 3), (1, 3), (1, 4), (2, 4)]);
    assert_eq!(cluster_points(&close), vec![vec![0, 3], vec![1, 4], vec![2]]);
}

#[test]
fn all_close_points_form_one_cluster() {
    let n = 7;
    let close = vec![vec![true; n]; n];
    assert_eq!(cluster_points(&close), vec![(0..n).collect::<Vec<usize>>()]);
}

#[test]
fn obstacle_needs_more_than_minimum_points() {
    let five: Vec<usize> = (0..MIN_OBSTACLE_POINTS).collect();
    let six: Vec<usize> = (10..16).collect();
    let seven: Vec<usize> = (20..27).collect();
    let kept = obstacle_clusters(vec![six.clone(), five, vec![3], seven.clone()]);
    assert_eq!(kept, vec![six, seven]);
}

#[test]
fn obstacle_filter_of_nothing() {
    assert!(obstacle_clusters(Vec::new()).is_empty());
}

#[test]
fn dense_cloud_yields_one_obstacle() {
    let close = relation(8, &[(0, 2), (0, 3), (0, 4), (0, 5), (0, 6), (1, 7)]);
    let groups = cluster_points(&close);
    assert_eq!(groups, vec![vec![0, 2, 3, 4, 5, 6], vec![1, 7]]);
    assert_eq!(obstacle_clusters(groups), vec![vec![0, 2, 3, 4, 5, 6]]);
}

#[test]
fn clustering_places_every_point_once() {
    let n = 12;
    let mut close = vec![vec![false; n]; n];
    for i in 0..n {
        for j in 0..n {
            close[i][j] = (i * 7 + j * 3) % 5 == 0 || (j * 7 + i * 3) % 5 == 0 || i == j;
        }
    }
    let groups = cluster_points(&close);
    let mut seen = vec![0usize; n];
    for g in &groups {
        assert!(!g.is_empty());
        for &p in g.iter().skip(1) {
            assert!(close[g[0]][p]);
        }
        for &p in g {
            seen[p] += 1;
        }
    }
    assert!(seen.iter().all(|&c| c == 1));
    for w in groups.windows(2) {
        assert!(w[0][0] < w[1][0]);
    }
}
