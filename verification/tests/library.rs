use rust_service::export::{output_metadata, SAMPLE_RATE};
use rust_service::geometry::{add_rect_as_two_triangles, Triangle};
use rust_service::simulation::{
    gather_rays, select_closest, BounceEvent, BounceLoop, HitBuckets, RayHits, RayPath,
};

fn corners(t: &Triangle<(f32, f32, f32), f32>) -> [(f32, f32, f32); 3] {
    [t.v0, t.v1, t.v2]
}

#[test]
fn rect_becomes_two_triangles_sharing_the_diagonal() {
    let mut room: Vec<Triangle<(f32, f32, f32), f32>> = Vec::new();
    let a = (0.0, 0.0, 0.0);
    let b = (10.0, 0.0, 0.0);
    let c = (10.0, 10.0, 0.0);
    let d = (0.0, 10.0, 0.0);
    add_rect_as_two_triangles(&mut room, a, b, c, d, 0.1);
    assert_eq!(room.len(), 2);
    assert_eq!(corners(&room[0]), [a, b, c]);
    assert_eq!(corners(&room[1]), [a, c, d]);
    assert_eq!(room[0].absorption, 0.1);
    assert_eq!(room[1].absorption, 0.1);
}

#[test]
fn rect_split_keeps_earlier_triangles() {
    let mut room: Vec<Triangle<u32, u8>> = Vec::new();
    add_rect_as_two_triangles(&mut room, 1, 2, 3, 4, 7);
    add_rect_as_two_triangles(&mut room, 5, 6, 7, 8, 9);
    assert_eq!(room.len(), 4);
    assert_eq!((room[0].v0, room[0].v1, room[0].v2, room[0].absorption), (1, 2, 3, 7));
    assert_eq!((room[1].v0, room[1].v1, room[1].v2, room[1].absorption), (1, 3, 4, 7));
    assert_eq!((room[2].v0, room[2].v1, room[2].v2, room[2].absorption), (5, 6, 7, 9));
    assert_eq!((room[3].v0, room[3].v1, room[3].v2, room[3].absorption), (5, 7, 8, 9));
}

#[test]
fn box_room_has_twelve_triangles() {
    let mut room: Vec<Triangle<u32, u8>> = Vec::new();
    for wall in 0..6u32 {
        add_rect_as_two_triangles(&mut room, 4 * wall, 4 * wall + 1, 4 * wall + 2, 4 * wall + 3, 1);
    }
    assert_eq!(room.len(), 12);
}

#[test]
fn closest_hit_is_the_nearest() {
    let keys = vec![Some(30), None, Some(10), Some(20)];
    assert_eq!(select_closest(&keys, u32::MAX), Some(2));
}

#[test]
fn closest_hit_takes_the_first_of_a_tie() {
    let keys = vec![None, Some(5), Some(9), Some(5)];
    assert_eq!(select_closest(&keys, u32::MAX), Some(1));
}

#[test]
fn closest_hit_none_when_everything_missed() {
    let keys: Vec<Option<u32>> = vec![None, None];
    assert_eq!(select_closest(&keys, u32::MAX), None);
    let empty: Vec<Option<u32>> = Vec::new();
    assert_eq!(select_closest(&empty, u32::MAX), None);
}

#[test]
fn closest_hit_ignores_keys_at_or_above_the_bound() {
    let bound = f32::MAX.to_bits();
    let keys = vec![Some(f32::INFINITY.to_bits()), Some(bound), Some(f32::NAN.to_bits())];
    assert_eq!(select_closest(&keys, bound), None);
    let keys = vec![Some(f32::INFINITY.to_bits()), Some(2.5f32.to_bits()), Some(bound)];
    assert_eq!(select_closest(&keys, bound), Some(1));
}

#[test]
fn float_distance_keys_order_like_the_distances() {
    let distances = [3.5f32, 0.25, 12.0, 0.5];
    let keys: Vec<Option<u32>> = distances.iter().map(|d| Some(d.to_bits())).collect();
    assert_eq!(select_closest(&keys, f32::MAX.to_bits()), Some(1));
}

#[test]
fn buckets_record_rays_in_order() {
    let mut buckets: HitBuckets<f32, f32> = HitBuckets::new();
    assert_eq!(buckets.len(), 0);
    buckets.record_ray(&vec![(0.01, 1.0), (0.02, 0.9)]);
    buckets.record_ray(&vec![]);
    buckets.record_ray(&vec![(0.03, 0.81)]);
    assert_eq!(buckets.len(), 3);
    let (delays, pressures) = buckets.into_parts();
    assert_eq!(delays, vec![0.01, 0.02, 0.03]);
    assert_eq!(pressures, vec![1.0, 0.9, 0.81]);
}

#[test]
fn merging_buckets_concatenates_in_order() {
    let mut left: HitBuckets<u32, u32> = HitBuckets::new();
    left.record_ray(&vec![(1, 10), (2, 20)]);
    let mut right: HitBuckets<u32, u32> = HitBuckets::new();
    right.record_ray(&vec![(3, 30)]);
    let merged = left.merge(right);
    assert_eq!(merged.into_parts(), (vec![1, 2, 3], vec![10, 20, 30]));
}

#[test]
fn split_then_merge_matches_one_worker() {
    let rays: Vec<Vec<(u32, u32)>> =
        vec![vec![(1, 1)], vec![], vec![(2, 2), (3, 3)], vec![(4, 4)], vec![(5, 5)]];
    let mut single: HitBuckets<u32, u32> = HitBuckets::new();
    for r in &rays {
        single.record_ray(r);
    }
    let single = single.into_parts();
    for k in 0..=rays.len() {
        let mut left: HitBuckets<u32, u32> = HitBuckets::new();
        let mut right: HitBuckets<u32, u32> = HitBuckets::new();
        for r in &rays[..k] {
            left.record_ray(r);
        }
        for r in &rays[k..] {
            right.record_ray(r);
        }
        assert_eq!(left.merge(right).into_parts(), single);
    }
}

#[test]
fn merge_is_associative() {
    let mk = |hits: Vec<(u8, u8)>| {
        let mut b: HitBuckets<u8, u8> = HitBuckets::new();
        b.record_ray(&hits);
        b
    };
    let x = mk(vec![(1, 2)]).merge(mk(vec![(3, 4)])).merge(mk(vec![(5, 6)]));
    let y = mk(vec![(1, 2)]).merge(mk(vec![(3, 4)]).merge(mk(vec![(5, 6)])));
    assert_eq!(x.into_parts(), y.into_parts());
}

#[test]
fn bounce_loop_spends_its_budget() {
    let mut control = BounceLoop::new(3);
    let mut casts = 0;
    while control.wants_cast() {
        control.record(BounceEvent::Reflected { too_quiet: false });
        casts += 1;
    }
    assert_eq!(casts, 3);
    assert_eq!(control.bounces(), 3);
}

#[test]
fn bounce_loop_stops_on_a_miss() {
    let mut control = BounceLoop::new(5);
    control.record(BounceEvent::Reflected { too_quiet: false });
    control.record(BounceEvent::Missed);
    assert!(!control.wants_cast());
    assert_eq!(control.bounces(), 1);
}

#[test]
fn bounce_loop_stops_when_too_quiet() {
    let mut control = BounceLoop::new(5);
    control.record(BounceEvent::Reflected { too_quiet: true });
    assert!(!control.wants_cast());
    assert_eq!(control.bounces(), 1);
}

#[test]
fn bounce_loop_without_budget_never_casts() {
    let control = BounceLoop::new(0);
    assert!(!control.wants_cast());
    assert_eq!(control.bounces(), 0);
}

#[test]
fn path_starts_at_origin_and_adds_each_reflection() {
    let mut path = RayPath::new((1.0f32, 2.0f32, 1.5f32), 10);
    assert!(path.wants_cast());
    path.reflect((10.0, 4.0, 1.0), false);
    path.reflect((3.0, 10.0, 0.5), false);
    path.miss();
    assert!(!path.wants_cast());
    assert_eq!(path.into_points(), vec![(1.0, 2.0, 1.5), (10.0, 4.0, 1.0), (3.0, 10.0, 0.5)]);
}

#[test]
fn path_is_at_most_budget_plus_one_points() {
    let mut path = RayPath::new(0u32, 4);
    let mut next = 1;
    while path.wants_cast() {
        path.reflect(next, false);
        next += 1;
    }
    assert_eq!(path.into_points(), vec![0, 1, 2, 3, 4]);
}

#[test]
fn path_ends_at_the_reflection_that_made_it_too_quiet() {
    let mut path = RayPath::new(0u32, 4);
    path.reflect(7, false);
    path.reflect(8, true);
    assert!(!path.wants_cast());
    assert_eq!(path.into_points(), vec![0, 7, 8]);
}

#[test]
fn metadata_of_an_export() {
    let m = output_metadata(100_000, 4321);
    assert_eq!(m.sample_rate, 44100);
    assert_eq!(SAMPLE_RATE, 44100);
    assert_eq!(m.rays_cast, 100_000);
    assert_eq!(m.rays_received, 4321);
    assert_eq!(m.room_name, "MVP_Test_Room_3D");
}

#[test]
fn metadata_hit_count_wraps_like_as() {
    let m = output_metadata(1, (u32::MAX as usize) + 3);
    assert_eq!(m.rays_received, 2);
}

#[test]
fn gather_rays_keeps_ray_order() {
    let per_ray: Vec<Vec<(u32, u32)>> = vec![vec![(1, 10)], vec![], vec![(2, 20), (3, 30)]];
    let gathered = gather_rays(3, |i| per_ray[i as usize].clone());
    assert_eq!(gathered.into_parts(), (vec![1, 2, 3], vec![10, 20, 30]));
}

#[test]
fn gather_rays_calls_each_ray_once_in_order() {
    let gathered = gather_rays(4, |i| vec![(i, 100 + i)]);
    assert_eq!(gathered.into_parts(), (vec![0, 1, 2, 3], vec![100, 101, 102, 103]));
}

#[test]
fn gather_no_rays_gives_no_hits() {
    let gathered = gather_rays(0, |_| vec![(1u8, 1u8)]);
    assert_eq!(gathered.len(), 0);
}

#[test]
fn ray_hits_record_at_most_one_per_reflection() {
    let mut hits: RayHits<f32, f32> = RayHits::new(5);
    assert!(hits.wants_cast());
    hits.reflect(Some((0.01, 1.0)), false);
    hits.reflect(None, false);
    hits.reflect(Some((0.05, 0.81)), false);
    hits.miss();
    assert!(!hits.wants_cast());
    assert_eq!(hits.into_hits(), vec![(0.01, 1.0), (0.05, 0.81)]);
}

#[test]
fn ray_hits_keep_the_hit_of_the_last_reflection_when_too_quiet() {
    let mut hits: RayHits<u32, u32> = RayHits::new(5);
    hits.reflect(Some((1, 1)), true);
    assert!(!hits.wants_cast());
    assert_eq!(hits.into_hits(), vec![(1, 1)]);
}

#[test]
fn ray_hits_never_exceed_the_budget() {
    let mut hits: RayHits<u32, u32> = RayHits::new(3);
    let mut n = 0;
    while hits.wants_cast() {
        hits.reflect(Some((n, n)), false);
        n += 1;
    }
    assert_eq!(hits.into_hits().len(), 3);
}

#[test]
fn run_of_rays_gathers_at_most_rays_times_budget() {
    let max_bounces = 2;
    let gathered = gather_rays(4, |i| {
        let mut hits: RayHits<u32, u32> = RayHits::new(max_bounces);
        while hits.wants_cast() {
            hits.reflect(Some((i, i)), false);
        }
        hits.into_hits()
    });
    assert_eq!(gathered.len(), 4 * 2);
}
