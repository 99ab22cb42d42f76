use itertools::Itertools;
use rand_distr::{Distribution, StandardNormal};
use std::collections::HashSet;

use poker_abstraction::error::Error;
use poker_abstraction::histogram::Histogram;
use poker_abstraction::k_means::{
    assign_point, calculate_center_distances, k_means, lower_weight, run_restart,
    total_distortion, update_center, BestResult, ClusterRun, Combine,
};
use poker_abstraction::lloyd::{FAR, MAX_ITERATIONS, UNREACHED};
use poker_abstraction::metric::Metric;

fn eight() -> Vec<Histogram> {
    vec![
        vec![1, 2, 3],
        vec![5, 7, 8],
        vec![1, 3, 3],
        vec![1, 9, 1],
        vec![1, 5, 2],
        vec![3, 9, 2],
        vec![9, 7, 2],
        vec![6, 7, 1],
    ]
    .into_iter()
    .map(|v: Vec<u64>| Histogram::from(v).unwrap())
    .collect()
}

fn pick(points: &Vec<Histogram>, seeds: &[usize]) -> Vec<Histogram> {
    seeds.iter().map(|i| points[*i].clone()).collect()
}

#[test]
fn test_k_means_histograms_mse() {
    let a = eight();

    let actual = k_means(3, 5, &a, Combine::Agg, Metric::Mse).unwrap();

    assert!(actual[0] == actual[1]);
    assert!(actual[1] == actual[2]);

    assert!(actual[3] == actual[4]);
    assert!(actual[4] == actual[5]);

    assert!(actual[6] == actual[7]);

    assert!(actual.iter().collect::<HashSet<_>>().len() == 3);

    println!("{:?}", actual);
}

#[test]
fn test_k_means_histograms_emd() {
    let a = eight();

    let actual = k_means(3, 5, &a, Combine::Agg, Metric::Emd).unwrap();

    assert!(actual[0] == actual[1]);
    assert!(actual[1] == actual[2]);

    assert!(actual[3] == actual[4]);
    assert!(actual[4] == actual[5]);

    assert!(actual[6] == actual[7]);

    assert!(actual.iter().collect::<HashSet<_>>().len() == 3);

    println!("{:?}", actual);
}

#[test]
fn test_k_means_random() {
    let n = 100;

    let mut rng = rand::thread_rng();

    let mut a = Vec::new();
    for i in 0..n {
        let mut v = vec![0.0; 10];

        for j in 0..10 {
            v[j] = f32::max(0.0, StandardNormal.sample(&mut rng));
        }
        v[i / (n / 10)] += 20.0;

        a.push(Histogram::from(v.into_iter().map(|x| (x * 1_000_000.0) as u64).collect()).unwrap());
    }

    let centers = k_means(n / 10, 1, &a, Combine::Agg, Metric::Mse).unwrap();

    for (_, chunk) in &centers.iter().chunk_by(|&&x| x) {
        assert_eq!(chunk.count(), n / 10);
    }
}

#[test]
fn spikes_without_noise_give_one_cluster_each() {
    let n = 100;
    let mut a = Vec::new();
    for i in 0..n {
        let mut v = vec![0u64; 10];
        v[i / (n / 10)] += 20;
        a.push(Histogram::from(v).unwrap());
    }
    let labels = k_means(n / 10, 1, &a, Combine::Agg, Metric::Mse).unwrap();
    for (_, chunk) in &labels.iter().chunk_by(|&&x| x) {
        assert_eq!(chunk.count(), n / 10);
    }
    assert_eq!(labels.iter().collect::<HashSet<_>>().len(), 10);
}

#[test]
fn labels_are_one_per_point_and_below_k() {
    let a = eight();
    for metric in [Metric::Mse, Metric::Emd] {
        for k in 1..=8 {
            let labels = k_means(k, 2, &a, Combine::Agg, metric).unwrap();
            assert_eq!(labels.len(), a.len());
            assert!(labels.iter().all(|l| *l < k));
        }
    }
}

#[test]
fn one_cluster_takes_every_point() {
    let labels = k_means(1, 1, &eight(), Combine::Agg, Metric::Emd).unwrap();
    assert_eq!(labels, vec![0; 8]);
}

#[test]
fn invalid_arguments_are_refused() {
    let a = eight();
    assert_eq!(k_means(0, 5, &a, Combine::Agg, Metric::Mse), Err(Error::InvalidArgument));
    assert_eq!(k_means(9, 5, &a, Combine::Agg, Metric::Mse), Err(Error::InvalidArgument));
    assert_eq!(k_means(3, 0, &a, Combine::Agg, Metric::Mse), Err(Error::InvalidArgument));
    assert_eq!(k_means(1, 1, &Vec::new(), Combine::Agg, Metric::Mse), Err(Error::InvalidArgument));
    assert_eq!(k_means(0, 0, &Vec::new(), Combine::Agg, Metric::Emd), Err(Error::InvalidArgument));
}

#[test]
fn invalid_arguments_come_before_degenerate_points() {
    let a = vec![Histogram::new(3), Histogram::new(3)];
    assert_eq!(k_means(3, 1, &a, Combine::Agg, Metric::Mse), Err(Error::InvalidArgument));
}

#[test]
fn a_point_without_mass_is_degenerate() {
    let mut a = eight();
    a[5] = Histogram::new(3);
    assert_eq!(k_means(3, 5, &a, Combine::Agg, Metric::Mse), Err(Error::DegenerateHistogram));
    assert_eq!(k_means(3, 5, &a, Combine::Agg, Metric::Emd), Err(Error::DegenerateHistogram));
}

#[test]
fn seeding_chooses_apart_what_lies_apart() {
    let near = Histogram::from(vec![9, 1]).unwrap();
    let far = Histogram::from(vec![1, 9]).unwrap();
    let a = vec![near.clone(), near.clone(), near.clone(), far];
    for _ in 0..20 {
        let labels = k_means(2, 1, &a, Combine::Agg, Metric::Emd).unwrap();
        assert_eq!(labels[0], labels[1]);
        assert_eq!(labels[1], labels[2]);
        assert_ne!(labels[2], labels[3]);
    }
}

#[test]
fn equal_points_can_still_be_seeded() {
    let p = Histogram::from(vec![1, 1]).unwrap();
    let a = vec![p.clone(), p.clone(), p];
    let labels = k_means(3, 2, &a, Combine::Agg, Metric::Mse).unwrap();
    assert_eq!(labels, vec![0, 0, 0]);
}

#[test]
fn center_distances_form_a_symmetric_table() {
    let a = eight();
    let centers = pick(&a, &[0, 3, 6]);
    let table = calculate_center_distances(&centers, Metric::Mse);
    assert_eq!(
        table,
        vec![
            vec![0, 408_172_636_372_819_101, 265_432_099_234_567_902],
            vec![408_172_636_372_819_101, 0, 352_055_914_045_097_441],
            vec![265_432_099_234_567_902, 352_055_914_045_097_441, 0],
        ]
    );
}

#[test]
fn assign_point_finds_the_center() {
    let a = eight();
    let centers = pick(&a, &[0, 3, 6]);
    let table = calculate_center_distances(&centers, Metric::Mse);
    let expected = [
        (0, 0),
        (0, 17_222_222_344_444_445),
        (0, 14_739_229_070_294_785),
        (1, 0),
        (0, 149_305_555_694_444_445),
        (1, 48_659_133_470_737_056),
        (2, 0),
        (2, 19_022_424_088_687_328),
    ];
    for (point, want) in a.iter().zip(expected) {
        assert_eq!(assign_point(point, 0, &centers, &table, Metric::Mse), want);
    }
}

#[test]
fn assign_point_passes_over_a_center_far_from_its_own() {
    let a = eight();
    let centers = pick(&a, &[0, 3, 6]);
    let table = calculate_center_distances(&centers, Metric::Mse);
    // Point 4 is nearer to center 1 than to center 0, but center 1 is more
    // than twice as far from center 0 as the point is.
    assert_eq!(Metric::Mse.measure(&a[4], &centers[1]), 63_791_322_595_041_324);
    assert_eq!(assign_point(&a[4], 0, &centers, &table, Metric::Mse).0, 0);
    assert_eq!(assign_point(&a[4], 1, &centers, &table, Metric::Mse).0, 1);
}

#[test]
fn update_center_takes_the_centroid_of_its_members() {
    let a = eight();
    let labels = vec![0, 0, 0, 1, 0, 1, 2, 2];
    let mut centers = pick(&a, &[0, 3, 6]);
    let want: [Vec<u128>; 3] = [
        vec![171_130_952, 434_226_190, 394_642_857],
        vec![152_597_402, 730_519_481, 116_883_116],
        vec![464_285_714, 444_444_444, 91_269_841],
    ];
    for p in 0..3 {
        update_center(&mut centers[p], p, &a, &labels);
        assert_eq!(centers[p].x, want[p]);
        assert_eq!(centers[p].s, 1_000_000_000);
    }
}

#[test]
fn update_center_leaves_an_empty_cluster_alone() {
    let a = eight();
    let labels = vec![0; 8];
    let mut center = a[3].clone();
    update_center(&mut center, 1, &a, &labels);
    assert_eq!(center.x, a[3].x);
    assert_eq!(center.s, a[3].s);
}

#[test]
fn lower_weight_keeps_the_smaller() {
    let a = eight();
    let mut w = FAR;
    lower_weight(&mut w, &a[0], &a[1], Metric::Emd);
    assert_eq!(w, 183_333_336);
    lower_weight(&mut w, &a[0], &a[3], Metric::Emd);
    assert_eq!(w, 183_333_336);
    lower_weight(&mut w, &a[1], &a[1], Metric::Emd);
    assert_eq!(w, 0);
}

#[test]
fn total_distortion_adds_up() {
    assert_eq!(total_distortion(&vec![]), 0);
    assert_eq!(total_distortion(&vec![1, 2, 3]), 6);
    assert_eq!(total_distortion(&vec![u64::MAX, u64::MAX]), 2 * (u64::MAX as u128));
}

#[test]
fn step_assigns_and_updates() {
    let a = eight();
    let mut state = ClusterRun::seeded(pick(&a, &[0, 3, 6]), a.len());
    assert_eq!(state.assignment, vec![0; 8]);
    assert_eq!(state.distortion, UNREACHED);
    assert_eq!(state.iteration, 0);
    let stable = state.step(&a, Metric::Mse);
    assert!(!stable);
    assert_eq!(state.assignment, vec![0, 0, 0, 1, 0, 1, 2, 2]);
    assert_eq!(state.distortion, 248_948_564_668_608_059);
    assert_eq!(state.iteration, 1);
    assert_eq!(state.centers[0].x, vec![171_130_952, 434_226_190, 394_642_857]);
    assert_eq!(state.centers[1].x, vec![152_597_402, 730_519_481, 116_883_116]);
    assert_eq!(state.centers[2].x, vec![464_285_714, 444_444_444, 91_269_841]);
}

#[test]
fn a_restart_stops_when_the_distortion_repeats() {
    let a = eight();
    let state = run_restart(pick(&a, &[0, 3, 6]), &a, Metric::Mse);
    assert_eq!(state.assignment, vec![0, 0, 0, 1, 0, 1, 2, 2]);
    assert_eq!(state.distortion, 129_910_081_590_171_379);
    assert_eq!(state.iteration, 3);
    assert!((state.iteration as usize) < MAX_ITERATIONS);
}

#[test]
fn a_restart_from_given_centers_is_determined() {
    let a = eight();
    let cases: [(Metric, [usize; 3], [usize; 8], u128, u32); 5] = [
        (Metric::Mse, [0, 1, 2], [0, 1, 2, 2, 2, 2, 1, 1], 260_656_696_063_223_858, 3),
        (Metric::Mse, [7, 7, 7], [0, 0, 0, 0, 0, 0, 1, 2], 340_777_109_208_317_095, 5),
        (Metric::Emd, [0, 3, 6], [0, 0, 0, 1, 1, 1, 2, 2], 671_645_027, 3),
        (Metric::Emd, [0, 1, 2], [0, 0, 0, 2, 2, 2, 1, 1], 671_645_027, 5),
        (Metric::Emd, [7, 7, 7], [0, 0, 0, 0, 0, 0, 1, 2], 1_116_991_348, 5),
    ];
    for (metric, seeds, labels, distortion, rounds) in cases {
        let state = run_restart(pick(&a, &seeds), &a, metric);
        assert_eq!(state.assignment, labels.to_vec());
        assert_eq!(state.distortion, distortion);
        assert_eq!(state.iteration, rounds);
    }
}

#[test]
fn the_best_over_all_seedings_is_the_expected_grouping() {
    let a = eight();
    for metric in [Metric::Mse, Metric::Emd] {
        let mut best = BestResult::none(a.len());
        for i in 0..8 {
            for j in 0..8 {
                for l in 0..8 {
                    best.offer(run_restart(pick(&a, &[i, j, l]), &a, metric));
                }
            }
        }
        let labels = best.assignment;
        assert!(labels[0] == labels[1] && labels[1] == labels[2]);
        assert!(labels[3] == labels[4] && labels[4] == labels[5]);
        assert!(labels[6] == labels[7]);
        assert_eq!(labels.iter().collect::<HashSet<_>>().len(), 3);
    }
}

#[test]
fn the_best_is_no_worse_than_any_restart() {
    let a = eight();
    let seedings = [[0, 1, 2], [7, 7, 7], [0, 3, 6], [2, 4, 6]];
    let mut best = BestResult::none(a.len());
    assert_eq!(best.distortion, UNREACHED);
    assert_eq!(best.assignment, vec![0; 8]);
    for seeds in seedings {
        best.offer(run_restart(pick(&a, &seeds), &a, Metric::Mse));
    }
    for seeds in seedings {
        assert!(best.distortion <= run_restart(pick(&a, &seeds), &a, Metric::Mse).distortion);
    }
    assert_eq!(best.distortion, 70_395_113_231_727_088);
    assert_eq!(best.assignment, vec![0, 0, 0, 1, 1, 1, 2, 2]);
}

#[test]
fn the_best_keeps_the_earlier_of_equal_restarts() {
    let a = eight();
    let mut best = BestResult::none(a.len());
    best.offer(run_restart(pick(&a, &[0, 3, 6]), &a, Metric::Emd));
    assert_eq!(best.assignment, vec![0, 0, 0, 1, 1, 1, 2, 2]);
    best.offer(run_restart(pick(&a, &[0, 1, 2]), &a, Metric::Emd));
    assert_eq!(best.assignment, vec![0, 0, 0, 1, 1, 1, 2, 2]);
    assert_eq!(best.distortion, 671_645_027);
}
