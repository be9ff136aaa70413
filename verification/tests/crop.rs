use crossmath::crop::{bounding_box, crop_cells, BoundingBox};

#[test]
fn bounding_box_of_cells() {
    // Width 10: 23 is column 3 of row 2, 57 column 7 of row 5, 41 column 1 of row 4.
    assert_eq!(
        bounding_box(10, &vec![23, 57, 41]),
        Some(BoundingBox { xmin: 1, xmax: 7, ymin: 2, ymax: 5 })
    );
    assert_eq!(
        bounding_box(10, &vec![23]),
        Some(BoundingBox { xmin: 3, xmax: 3, ymin: 2, ymax: 2 })
    );
    assert_eq!(
        bounding_box(1, &vec![4, 0, 9]),
        Some(BoundingBox { xmin: 0, xmax: 0, ymin: 0, ymax: 9 })
    );
    assert_eq!(bounding_box(10, &Vec::new()), None);
}

#[test]
fn crop_keeps_the_cells_of_the_box() {
    let grid: Vec<String> = (0..20).map(|i| format!("c{i}")).collect();
    let b = BoundingBox { xmin: 1, xmax: 3, ymin: 1, ymax: 2 };
    assert_eq!(crop_cells(&grid, 5, &b), ["c6", "c7", "c8", "c11", "c12", "c13"]);
    let whole = BoundingBox { xmin: 0, xmax: 4, ymin: 0, ymax: 3 };
    assert_eq!(crop_cells(&grid, 5, &whole), grid);
    let one = BoundingBox { xmin: 4, xmax: 4, ymin: 3, ymax: 3 };
    assert_eq!(crop_cells(&grid, 5, &one), ["c19"]);
}
