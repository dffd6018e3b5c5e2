use pingpong_bot::camera;
use pingpong_bot::vision::detect::colormask::{
    ColorSpace, ColormaskCam, ColormaskError, ColormaskParams, ColormaskSet,
    load_colormask_set_or_empty,
};

fn params(base: u8) -> ColormaskParams {
    ColormaskParams {
        space: ColorSpace::Hsv,
        c0_min: base,
        c0_max: base + 10,
        c1_min: base + 20,
        c1_max: base + 30,
        c2_min: base + 40,
        c2_max: base + 50,
    }
}

#[test]
fn upsert_then_samples_reads_back() {
    let mut set = ColormaskSet::default();
    set.upsert(camera::Id(0), params(10), vec![[40u8, 120, 200]]);
    assert_eq!(set.samples(camera::Id(0)).unwrap(), &[[40u8, 120, 200]]);
    assert_eq!(set.params(camera::Id(0)), Some(&params(10)));
    assert!(set.params(camera::Id(1)).is_none());
    assert!(set.samples(camera::Id(1)).is_none());
}

#[test]
fn upsert_replaces_in_place() {
    let mut set = ColormaskSet::default();
    set.upsert(camera::Id(2), params(1), vec![[1, 2, 3]]);
    set.upsert(camera::Id(0), params(2), vec![]);
    set.upsert(camera::Id(2), params(3), vec![[9, 9, 9]]);
    assert_eq!(set.cameras.len(), 2);
    assert_eq!(set.params(camera::Id(2)), Some(&params(3)));
    assert_eq!(set.samples(camera::Id(2)).unwrap(), &[[9u8, 9, 9]]);
    assert_eq!(set.params(camera::Id(0)), Some(&params(2)));
}

#[test]
fn upsert_keeps_cameras_sorted_by_id() {
    let mut set = ColormaskSet::default();
    for id in [3u32, 1, 2, 0] {
        set.upsert(camera::Id(id), params(id as u8), vec![]);
    }
    let ids: Vec<u32> = set.cameras.iter().map(|c| c.camera_id.0).collect();
    assert_eq!(ids, vec![0, 1, 2, 3]);
}

#[test]
fn upsert_sorts_an_unsorted_bundle_stably() {
    let cam = |id: u32, base: u8| ColormaskCam {
        camera_id: camera::Id(id),
        params: params(base),
        samples: vec![],
    };
    let mut set = ColormaskSet { cameras: vec![cam(5, 1), cam(3, 2), cam(5, 3)] };
    set.upsert(camera::Id(4), params(4), vec![]);
    let order: Vec<(u32, u8)> =
        set.cameras.iter().map(|c| (c.camera_id.0, c.params.c0_min)).collect();
    assert_eq!(order, vec![(3, 2), (4, 4), (5, 1), (5, 3)]);
    // The first entry of camera 5 still answers for it.
    assert_eq!(set.params(camera::Id(5)), Some(&params(1)));
}

#[test]
fn validate_names_the_first_inverted_channel() {
    assert_eq!(params(0).validate(), Ok(()));
    let mut p = params(0);
    p.c1_min = 200;
    p.c2_min = 200;
    assert_eq!(p.validate(), Err(ColormaskError::InvertedRange { channel: 1 }));
    let mut q = params(0);
    q.c0_min = 11;
    assert_eq!(q.validate(), Err(ColormaskError::InvertedRange { channel: 0 }));
    let mut r = params(0);
    r.c2_max = 0;
    assert_eq!(r.validate(), Err(ColormaskError::InvertedRange { channel: 2 }));
}

#[test]
fn equal_bounds_are_accepted() {
    let p = ColormaskParams {
        space: ColorSpace::Ycrcb,
        c0_min: 7,
        c0_max: 7,
        c1_min: 0,
        c1_max: 0,
        c2_min: 255,
        c2_max: 255,
    };
    assert_eq!(p.validate(), Ok(()));
}

#[test]
fn missing_bundle_loads_empty() {
    let set = load_colormask_set_or_empty(None).unwrap();
    assert!(set.cameras.is_empty());
}

#[test]
fn found_bundle_is_validated() {
    let mut good = ColormaskSet::default();
    good.upsert(camera::Id(0), params(1), vec![[1, 2, 3]]);
    let loaded = load_colormask_set_or_empty(Some(good.clone())).unwrap();
    assert_eq!(loaded, good);

    let mut bad = good.clone();
    let mut p = params(1);
    p.c2_max = 0;
    bad.upsert(camera::Id(1), p, vec![]);
    assert_eq!(
        load_colormask_set_or_empty(Some(bad)),
        Err(ColormaskError::InvertedRange { channel: 2 })
    );
}
