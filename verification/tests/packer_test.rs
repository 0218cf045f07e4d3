use bin_packer::geometry::{AxisSize, Dimension};
use bin_packer::packer::{Bin, BinPacker3D, Dimensional, Item};

/// Lengths are held in units of 10^-7 of the length unit of the inputs.
const UNITS: f64 = 10_000_000.0;

fn units(x: f64) -> u64 {
    (x * UNITS).round() as u64
}

fn bin(width: f64, height: f64, depth: f64) -> Bin {
    Bin { width: units(width), height: units(height), depth: units(depth) }
}

fn item(shape_id: i32, name: &str, width: f64, height: f64, depth: f64) -> Item {
    Item {
        shape_id,
        name: name.to_string(),
        position_xyz: [0, 0, 0],
        size: [
            Dimension { length: units(width), axis: AxisSize::Width },
            Dimension { length: units(height), axis: AxisSize::Height },
            Dimension { length: units(depth), axis: AxisSize::Depth },
        ],
    }
}

fn assert_items_within_bin_bounds(items: &[Item], bin: &Bin) {
    for item in items {
        assert!(
            item.position_xyz[0] + item.size_xyz()[0] <= bin.width,
            "Item {} extends beyond bin width",
            item.shape_id
        );
        assert!(
            item.position_xyz[1] + item.size_xyz()[1] <= bin.height,
            "Item {} extends beyond bin height",
            item.shape_id
        );
        assert!(
            item.position_xyz[2] + item.size_xyz()[2] <= bin.depth,
            "Item {} extends beyond bin depth",
            item.shape_id
        );
    }
}

#[test]
fn test_stacking() {
    // The longest item dimension is stacked along the bin's shortest dimension.
    let bin = bin(48.0, 35.0, 33.0);

    let mut items: Vec<Item> = Vec::new();
    let mut item_id = 0;
    for _ in 0..6 {
        items.push(item(item_id, "item", 12.0, 19.5, 31.0));
        item_id += 1;
    }

    let result = BinPacker3D::pack(bin, items);

    assert_eq!(result.placed.len(), 6, "All items should be placed in the bin");
    assert_eq!(result.unplaced.len(), 0, "No items should be unplaced");
    assert_items_within_bin_bounds(&result.placed, &result.bin);

    assert!(
        result.placed[0..4]
            .iter()
            .all(|item| item.position_xyz[1] == units(0.0) && item.position_xyz[2] == units(0.0)),
        "First four items should have been stacked along the x-axis"
    );
    assert!(
        result.placed[4..6]
            .iter()
            .all(|item| item.position_xyz[1] == units(19.5) && item.position_xyz[2] == units(0.0)),
        "Second last item should have been placed on top of the first four, at x=0.0"
    );
    assert_eq!(
        result.placed[5].position_xyz[0],
        units(19.5),
        "Last item should have been placed next to the second last item, at x=19.5"
    );
}

#[test]
fn test_pack_all_items_in_bin() {
    let bin = bin(10.0, 10.0, 10.0);
    let items: Vec<Item> = vec![
        item(0, "item_1", 5.0, 5.0, 5.0),
        item(1, "item_2", 10.0, 5.0, 10.0),
        item(2, "item_3", 10.0, 5.0, 5.0),
    ];

    let result = BinPacker3D::pack(bin, items);

    assert_eq!(result.placed.len(), 3, "Both items should be placed in the bin");
    assert_eq!(result.unplaced.len(), 0, "No items should be unplaced");
    assert_items_within_bin_bounds(&result.placed, &result.bin);
}

#[test]
fn test_many_cubes() {
    let bin = bin(50.0, 14.0, 50.0);

    let mut items: Vec<Item> = Vec::new();
    let mut item_id = 0;
    for _ in 0..1024 {
        items.push(item(item_id, "small", 2.0, 2.0, 2.0));
        item_id += 1;
    }
    for _ in 0..1024 {
        items.push(item(item_id, "medium", 3.0, 3.0, 3.0));
        item_id += 1;
    }

    let result = BinPacker3D::pack(bin, items);

    // Optimal result should pack all medium boxes, then fill the rest of the space with small boxes
    assert!(
        result.placed.len() == 1943,
        "Expected 1943 items to be placed, but got {}",
        result.placed.len()
    );
    assert!(
        result.unplaced.len() == 105,
        "Expected 105 items to be unplaced, but got {}",
        result.unplaced.len()
    );
    assert_items_within_bin_bounds(&result.placed, &result.bin);
}
