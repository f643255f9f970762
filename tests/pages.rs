use ocr_pipeline::correction::{select_suggestions, SuggestionSpan};
use ocr_pipeline::document::{assemble_document, page_outcome, PageResult};
use ocr_pipeline::edges::{count_edges, edge_points, has_text, ClassifierConfig, EdgeMap, EdgePoint};
use ocr_pipeline::regions::{
    bounding_box, cluster_regions, find_min_max, group_clusters, BoundingBox, Label,
};

fn map_with_set_pixels(width: u32, height: u32, set: usize) -> EdgeMap {
    let n = (width as usize) * (height as usize);
    let mut pixels = vec![0u8; n];
    for p in pixels.iter_mut().take(set) {
        *p = 255;
    }
    EdgeMap { width, height, pixels }
}

#[test]
fn edge_count_at_threshold_is_not_text() {
    let map = map_with_set_pixels(400, 200, 50_000);
    assert_eq!(count_edges(&map), 50_000);
    assert!(has_text(map, &ClassifierConfig::new()).is_none());
}

#[test]
fn edge_count_above_threshold_is_text() {
    let map = map_with_set_pixels(400, 200, 50_001);
    let kept = has_text(map, &ClassifierConfig::new()).expect("text-bearing");
    assert_eq!(count_edges(&kept), 50_001);
}

#[test]
fn edge_points_are_row_major() {
    let map = EdgeMap { width: 3, height: 2, pixels: vec![0, 255, 0, 1, 0, 9] };
    assert_eq!(
        edge_points(&map),
        vec![EdgePoint { x: 1, y: 0 }, EdgePoint { x: 0, y: 1 }, EdgePoint { x: 2, y: 1 }]
    );
}

fn result(i: usize, t: &str) -> PageResult {
    PageResult { page_index: i, text: t.to_string() }
}

#[test]
fn document_follows_page_order_not_completion_order() {
    let a = vec![result(2, "C"), result(0, "A"), result(1, "B")];
    let b = vec![result(1, "B"), result(2, "C"), result(0, "A")];
    assert_eq!(assemble_document(&a, 3), "ABC");
    assert_eq!(assemble_document(&b, 3), "ABC");
}

#[test]
fn blank_middle_page_contributes_nothing() {
    let outcomes = vec![
        page_outcome(2, true, Some("page two. ".to_string())),
        page_outcome(1, false, Some("ignored".to_string())),
        page_outcome(0, true, Some("page zero. ".to_string())),
    ];
    let results: Vec<PageResult> = outcomes.into_iter().flatten().collect();
    assert_eq!(results.len(), 2);
    let mut indices: Vec<usize> = results.iter().map(|r| r.page_index).collect();
    indices.sort();
    assert_eq!(indices, vec![0, 2]);
    assert_eq!(assemble_document(&results, 3), "page zero. page two. ");
}

#[test]
fn failed_ocr_gives_empty_text() {
    let r = page_outcome(4, true, None).expect("text-bearing page");
    assert_eq!(r.page_index, 4);
    assert_eq!(r.text, "");
    assert!(page_outcome(4, false, None).is_none());
}

#[test]
fn square_cluster_and_noise_point() {
    let points = vec![
        EdgePoint { x: 100, y: 100 },
        EdgePoint { x: 110, y: 100 },
        EdgePoint { x: 100, y: 110 },
        EdgePoint { x: 110, y: 110 },
        EdgePoint { x: 900, y: 900 },
    ];
    let labels = vec![Label::Core(0), Label::Core(0), Label::Edge(0), Label::Core(0), Label::Noise];
    let groups = group_clusters(&points, &labels);
    assert_eq!(groups.len(), 1);
    assert_eq!(groups[0], points[..4].to_vec());
    let clusters = cluster_regions(&points, &labels);
    assert_eq!(clusters.len(), 1);
    assert_eq!(clusters[0].id, 0);
    assert_eq!(
        clusters[0].bbox,
        BoundingBox { min_x: 100, max_x: 110, min_y: 100, max_y: 110 }
    );
    assert_eq!(clusters[0].bbox.crop_rect(), (100, 100, 10, 10));
}

#[test]
fn dbscan_labels_group_into_one_box() {
    let coords: Vec<(u32, u32)> = vec![(10, 10), (13, 10), (10, 13), (13, 13), (11, 12), (500, 500)];
    let rows: Vec<Vec<f64>> = coords.iter().map(|&(x, y)| vec![x as f64, y as f64]).collect();
    let labels: Vec<Label> = dbscan::Model::new(10.0, 5)
        .run(&rows)
        .into_iter()
        .map(|c| match c {
            dbscan::Classification::Core(i) => Label::Core(i),
            dbscan::Classification::Edge(i) => Label::Edge(i),
            dbscan::Classification::Noise => Label::Noise,
        })
        .collect();
    assert_eq!(labels[5], Label::Noise);
    let points: Vec<EdgePoint> = coords.iter().map(|&(x, y)| EdgePoint { x, y }).collect();
    let clusters = cluster_regions(&points, &labels);
    assert_eq!(clusters.len(), 1);
    assert_eq!(clusters[0].points.len(), 5);
    assert_eq!(clusters[0].bbox, BoundingBox { min_x: 10, max_x: 13, min_y: 10, max_y: 13 });
}

#[test]
fn min_max_of_values() {
    assert_eq!(find_min_max(&vec![]), None);
    assert_eq!(find_min_max(&vec![7]), Some((7, 7)));
    assert_eq!(find_min_max(&vec![5, 2, 9, 4]), Some((2, 9)));
    assert_eq!(bounding_box(&vec![]), None);
}

#[test]
fn overlapping_suggestions_first_wins() {
    let s = |start, end, has_replacement| SuggestionSpan { start, end, has_replacement };
    let spans = vec![s(0, 3, true), s(2, 5, true), s(5, 7, false), s(5, 8, true), s(9, 12, true)];
    assert_eq!(select_suggestions(&spans, 10), vec![true, false, false, true, false]);
}
