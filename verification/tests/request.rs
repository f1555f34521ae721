use weer::models::EnsembleStat;
use weer::request::{
    ensemble_index, image_source, neighbourhood_box, resolve_member, resolve_slice_request, time_index, ImageSource, SliceError,
    SliceRequest,
};

#[test]
fn slice_requests() {
    let ens = [1i32, 2, 3, 2];
    let times = [0i64, 300, 600];
    assert_eq!(
        resolve_slice_request(&ens, &times, "med", 300),
        Ok(SliceRequest::Statistic(EnsembleStat::Median, 1))
    );
    assert_eq!(resolve_slice_request(&ens, &times, "pmm", 301), Err(SliceError::InvalidTime(301)));
    assert_eq!(resolve_slice_request(&ens, &times, "2", 600), Ok(SliceRequest::Member(1, 2)));
    assert_eq!(resolve_slice_request(&ens, &times, "+3", 0), Ok(SliceRequest::Member(2, 0)));
    assert_eq!(resolve_slice_request(&ens, &times, "7", 0), Err(SliceError::InvalidEnsembleNumber(7)));
    assert_eq!(resolve_slice_request(&ens, &times, "x", 0), Err(SliceError::InvalidEnsembleParameter));
    assert_eq!(resolve_slice_request(&ens, &times, "2", 1), Err(SliceError::InvalidTime(1)));
    assert_eq!(resolve_slice_request(&ens, &times, "99999999999", 0), Err(SliceError::InvalidEnsembleParameter));
}

#[test]
fn first_indices() {
    assert_eq!(time_index(&[5, 7, 5], 5), Some(0));
    assert_eq!(time_index(&[5, 7, 5], 6), None);
    assert_eq!(ensemble_index(&[2, 2], 2), Some(0));
}

#[test]
fn image_sources() {
    let times = [0i64, 300];
    assert_eq!(image_source(&times, "med", 300), ImageSource::Radar);
    assert_eq!(image_source(&times, "pmm", 300), ImageSource::Radar);
    assert_eq!(image_source(&times, "med", 900), ImageSource::Blank);
    assert_eq!(image_source(&times, "pmm", 900), ImageSource::HarmonieRain);
}

#[test]
fn neighbourhood_boxes_are_clipped_to_the_grid() {
    assert_eq!(neighbourhood_box(50, 60, 10, 700, 765), (40, 50, 21, 21));
    assert_eq!(neighbourhood_box(3, 0, 10, 700, 765), (0, 0, 14, 11));
    assert_eq!(neighbourhood_box(699, 764, 10, 700, 765), (689, 754, 11, 11));
    assert_eq!(neighbourhood_box(0, 0, 0, 1, 1), (0, 0, 1, 1));
}

#[test]
fn member_selectors() {
    let ens = [1i32, 2, 3, 2];
    assert_eq!(resolve_member(&ens, "2"), Ok(1));
    assert_eq!(resolve_member(&ens, "+3"), Ok(2));
    assert_eq!(resolve_member(&ens, "-1"), Err(SliceError::InvalidEnsembleNumber(-1)));
    assert_eq!(resolve_member(&ens, "med"), Err(SliceError::InvalidEnsembleParameter));
    assert_eq!(resolve_member(&ens, ""), Err(SliceError::InvalidEnsembleParameter));
}
