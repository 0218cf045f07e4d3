use bin_packer::geometry::{
    dims_volume, dims_xyz, index, index_mut, sort3_ascending, sort_dims_ascending, AxisSize,
    Dimension,
};
use bin_packer::packer::{fits, same_size, Bin, BinPacker3D, Dimensional, Item, Space};
use bin_packer::packer_io::{
    expand_items, group_items, process_results_to_output, ItemInput, ResponseType,
};
use bin_packer::sorting::{reversed, stable_sort_by_key};

fn dims(w: u64, h: u64, d: u64) -> [Dimension; 3] {
    [
        Dimension { length: w, axis: AxisSize::Width },
        Dimension { length: h, axis: AxisSize::Height },
        Dimension { length: d, axis: AxisSize::Depth },
    ]
}

fn item(shape_id: i32, name: &str, w: u64, h: u64, d: u64) -> Item {
    Item { shape_id, name: name.to_string(), position_xyz: [0, 0, 0], size: dims(w, h, d) }
}

fn input(shape_id: i32, name: &str, w: u64, h: u64, d: u64, quantity: i32) -> ItemInput {
    ItemInput { shape_id, name: name.to_string(), width: w, height: h, depth: d, quantity }
}

fn sorted_lengths(d: &[Dimension; 3]) -> [u64; 3] {
    sort3_ascending(&[d[0].length, d[1].length, d[2].length])
}

#[test]
fn axis_positions() {
    assert_eq!(usize::from(AxisSize::Width), 0);
    assert_eq!(usize::from(AxisSize::Height), 1);
    assert_eq!(usize::from(AxisSize::Depth), 2);
    let mut xyz = [10u64, 20, 30];
    assert_eq!(index(&xyz, AxisSize::Height), 20);
    index_mut(&mut xyz, AxisSize::Depth, 7);
    assert_eq!(xyz, [10, 20, 7]);
}

#[test]
fn sizes_by_axis_and_volume() {
    let d = [
        Dimension { length: 3, axis: AxisSize::Depth },
        Dimension { length: 1, axis: AxisSize::Width },
        Dimension { length: 2, axis: AxisSize::Height },
    ];
    assert_eq!(dims_xyz(&d), [1, 2, 3]);
    assert_eq!(dims_volume(&d), 6);
    let it = Item { shape_id: 1, name: "a".to_string(), position_xyz: [0, 0, 0], size: d };
    assert_eq!(it.size_xyz(), [1, 2, 3]);
    assert_eq!(it.volume(), 6);
    assert_eq!(it.get_size(), &d);
}

#[test]
fn same_size_up_to_rotation() {
    let a = item(1, "a", 1, 2, 3);
    assert!(a.is_same_size(&dims(3, 1, 2)));
    assert!(!a.is_same_size(&dims(3, 1, 1)));
    assert!(same_size(&dims(4, 5, 6), &dims(6, 5, 4)));
}

#[test]
fn sorting_three_values_and_dimensions() {
    assert_eq!(sort3_ascending(&[5, 1, 3]), [1, 3, 5]);
    let d = [
        Dimension { length: 4, axis: AxisSize::Width },
        Dimension { length: 2, axis: AxisSize::Height },
        Dimension { length: 4, axis: AxisSize::Depth },
    ];
    let r = sort_dims_ascending(&d);
    // Equal lengths keep their order: width before depth.
    assert_eq!(r[0], d[1]);
    assert_eq!(r[1], d[0]);
    assert_eq!(r[2], d[2]);
}

#[test]
fn fits_in_some_rotation() {
    let space = Space { position_xyz: [0, 0, 0], size: dims(10, 2, 5) };
    assert!(fits(&space, &item(1, "a", 2, 5, 10)));
    assert!(fits(&space, &item(1, "a", 10, 2, 5)));
    assert!(!fits(&space, &item(1, "a", 3, 3, 3)));
    assert!(!fits(&space, &item(1, "a", 11, 1, 1)));
}

#[test]
fn stable_sort_keeps_ties_in_order() {
    let (v, k) = stable_sort_by_key(vec!['a', 'b', 'c', 'd'], vec![2, 1, 2, 1], false);
    assert_eq!(v, vec!['b', 'd', 'a', 'c']);
    assert_eq!(k, vec![1, 1, 2, 2]);
    let (v, _) = stable_sort_by_key(vec!['a', 'b', 'c', 'd'], vec![2, 1, 2, 1], true);
    assert_eq!(v, vec!['a', 'c', 'b', 'd']);
    assert_eq!(reversed(vec![1, 2, 3]), vec![3, 2, 1]);
}

#[test]
fn one_item_filling_the_bin() {
    let bin = Bin { width: 4, height: 5, depth: 6 };
    let result = BinPacker3D::pack(bin, vec![item(7, "block", 6, 4, 5)]);
    assert_eq!(result.placed.len(), 1);
    assert_eq!(result.unplaced.len(), 0);
    assert!(result.free_spaces.is_empty());
    assert_eq!(result.placed[0].position_xyz, [0, 0, 0]);
    assert_eq!(result.placed[0].size_xyz(), [4, 5, 6]);
}

#[test]
fn oversized_items_are_set_aside_first() {
    let bin = Bin { width: 10, height: 10, depth: 10 };
    let items = vec![
        item(0, "fits", 2, 2, 2),
        item(1, "long", 11, 1, 1),
        item(2, "fits", 2, 2, 2),
        item(3, "longer", 1, 1, 20),
    ];
    let result = BinPacker3D::pack(bin, items);
    assert_eq!(result.unplaced.len(), 2);
    assert_eq!(result.unplaced[0].shape_id, 1);
    assert_eq!(result.unplaced[1].shape_id, 3);
    assert_eq!(result.placed.len(), 2);
}

#[test]
fn items_are_neither_lost_nor_duplicated() {
    let bin = Bin { width: 5, height: 5, depth: 5 };
    let mut items = Vec::new();
    for id in 0..20 {
        items.push(item(id, "cube", 2, 2, 2));
    }
    let result = BinPacker3D::pack(bin, items);
    assert_eq!(result.placed.len() + result.unplaced.len(), 20);
    let mut ids: Vec<i32> = result.placed.iter().chain(result.unplaced.iter()).map(|i| i.shape_id).collect();
    ids.sort();
    assert_eq!(ids, (0..20).collect::<Vec<i32>>());
    // Eight 2x2x2 cubes fit into a 5x5x5 bin.
    assert_eq!(result.placed.len(), 8);
}

#[test]
fn placed_and_free_volumes_fill_the_bin() {
    let bin = Bin { width: 48, height: 35, depth: 33 };
    let mut items = Vec::new();
    for id in 0..9 {
        items.push(item(id, "box", 12, 19, 31));
    }
    items.push(item(9, "small", 5, 6, 7));
    let result = BinPacker3D::pack(bin, items);
    let placed: u128 = result.placed.iter().map(|i| i.volume()).sum();
    let free: u128 = result.free_spaces.iter().map(|s| s.volume()).sum();
    assert_eq!(placed + free, 48 * 35 * 33);
    for pair in result.free_spaces.windows(2) {
        assert!(pair[0].volume() <= pair[1].volume());
    }
    for s in &result.free_spaces {
        assert!(s.volume() > 0);
        let xyz = s.size_xyz();
        assert!(s.position_xyz[0] + xyz[0] <= 48);
        assert!(s.position_xyz[1] + xyz[1] <= 35);
        assert!(s.position_xyz[2] + xyz[2] <= 33);
    }
    for it in &result.placed {
        let xyz = it.size_xyz();
        assert!(it.position_xyz[0] + xyz[0] <= 48);
        assert!(it.position_xyz[1] + xyz[1] <= 35);
        assert!(it.position_xyz[2] + xyz[2] <= 33);
        let l = sorted_lengths(&it.size);
        assert!(l == [12, 19, 31] || l == [5, 6, 7]);
    }
}

#[test]
fn empty_bin_holds_nothing() {
    let bin = Bin { width: 0, height: 10, depth: 10 };
    let result = BinPacker3D::pack(bin, vec![item(0, "a", 1, 1, 1)]);
    assert_eq!(result.placed.len(), 0);
    assert_eq!(result.unplaced.len(), 1);
}

#[test]
fn expanding_repeats_each_input() {
    let items = expand_items(vec![
        input(1, "a", 1, 2, 3, 2),
        input(2, "b", 4, 5, 6, 0),
        input(3, "c", 7, 8, 9, -1),
        input(4, "d", 1, 1, 1, 1),
    ]);
    assert_eq!(items.len(), 3);
    assert_eq!(items[0].shape_id, 1);
    assert_eq!(items[1].shape_id, 1);
    assert_eq!(items[2].shape_id, 4);
    assert_eq!(items[0].size_xyz(), [1, 2, 3]);
    assert_eq!(items[0].position_xyz, [0, 0, 0]);
    assert_eq!(items[1].name, "a");
}

#[test]
fn grouping_counts_shapes_in_order_of_first_appearance() {
    let mut rotated = item(5, "five", 3, 1, 2);
    rotated.size = [
        Dimension { length: 2, axis: AxisSize::Depth },
        Dimension { length: 3, axis: AxisSize::Width },
        Dimension { length: 1, axis: AxisSize::Height },
    ];
    let items = vec![rotated, item(9, "nine", 1, 1, 1), item(5, "other", 7, 7, 7), item(9, "nine", 1, 1, 1), item(5, "x", 1, 1, 1)];
    let groups = group_items(&items);
    assert_eq!(groups.len(), 2);
    assert_eq!(groups[0].shape_id, 5);
    assert_eq!(groups[0].quantity, 3);
    assert_eq!(groups[0].name, "five");
    assert_eq!((groups[0].width, groups[0].height, groups[0].depth), (3, 1, 2));
    assert_eq!(groups[1].shape_id, 9);
    assert_eq!(groups[1].quantity, 2);
}

#[test]
fn grouping_the_expanded_inputs_gives_them_back() {
    let inputs = vec![input(3, "c", 7, 8, 9, 2), input(1, "a", 1, 2, 3, 3), input(2, "b", 4, 5, 6, 1)];
    let groups = group_items(&expand_items(inputs.clone()));
    assert_eq!(groups.len(), 3);
    for (g, i) in groups.iter().zip(inputs.iter()) {
        assert_eq!(g.shape_id, i.shape_id);
        assert_eq!(g.name, i.name);
        assert_eq!((g.width, g.height, g.depth), (i.width, i.height, i.depth));
        assert_eq!(g.quantity, i.quantity);
    }
}

#[test]
fn results_for_display_restore_input_lengths() {
    let inputs = vec![input(1, "tall", 2, 8, 4, 1), input(2, "huge", 100, 1, 1, 1)];
    let items = expand_items(inputs.clone());
    let result = BinPacker3D::pack(Bin { width: 8, height: 4, depth: 2 }, items);
    assert_eq!(result.placed.len(), 1);
    let placed_xyz = result.placed[0].size_xyz();
    let output = process_results_to_output(result, inputs);
    assert_eq!(output.placed_items.len(), 1);
    let p = &output.placed_items[0];
    assert_eq!((p.width, p.height, p.depth), (2, 8, 4));
    assert_eq!(output.unpacked_items.len(), 1);
    assert_eq!(output.unpacked_items[0].shape_id, 2);
    assert_eq!(output.item_pos.len(), 1);
    assert_eq!(
        (output.item_pos[0].width, output.item_pos[0].height, output.item_pos[0].depth),
        (placed_xyz[0], placed_xyz[1], placed_xyz[2])
    );
    assert_eq!((output.bin.width, output.bin.height, output.bin.depth), (8, 4, 2));
    assert!(output.free_space_pos.is_empty());
    assert_ne!(ResponseType::PackResult, ResponseType::LoadResult);
}

fn apart(p: [u64; 3], e: [u64; 3], q: [u64; 3], f: [u64; 3]) -> bool {
    (0..3).any(|k| p[k] + e[k] <= q[k] || q[k] + f[k] <= p[k] || e[k] == 0 || f[k] == 0)
}

#[test]
fn nothing_overlaps_after_packing_mixed_items() {
    let bin = Bin { width: 20, height: 17, depth: 13 };
    let mut items = Vec::new();
    let sizes = [(7, 5, 3), (4, 4, 4), (9, 2, 6), (3, 3, 8), (5, 1, 2), (6, 6, 2), (2, 2, 2)];
    for (n, &(w, h, d)) in sizes.iter().enumerate() {
        for c in 0..6 {
            items.push(item(n as i32, &format!("s{}-{}", n, c), w, h, d));
        }
    }
    let r = BinPacker3D::pack(bin, items);
    assert!(!r.placed.is_empty());
    let placed: Vec<([u64; 3], [u64; 3])> =
        r.placed.iter().map(|it| (it.position_xyz, it.size_xyz())).collect();
    let free: Vec<([u64; 3], [u64; 3])> =
        r.free_spaces.iter().map(|s| (s.position_xyz, s.size_xyz())).collect();
    for i in 0..placed.len() {
        for j in 0..placed.len() {
            if i != j {
                assert!(apart(placed[i].0, placed[i].1, placed[j].0, placed[j].1));
            }
        }
        for s in &free {
            assert!(apart(placed[i].0, placed[i].1, s.0, s.1));
        }
    }
    for i in 0..free.len() {
        for j in 0..free.len() {
            if i != j {
                assert!(apart(free[i].0, free[i].1, free[j].0, free[j].1));
            }
        }
    }
}

#[test]
fn many_cubes_places_every_medium_cube() {
    let bin = Bin { width: 50, height: 14, depth: 50 };
    let mut items = Vec::new();
    for k in 0..1024 {
        items.push(item(k, "small", 2, 2, 2));
    }
    for k in 1024..2048 {
        items.push(item(k, "medium", 3, 3, 3));
    }
    let r = BinPacker3D::pack(bin, items);
    let medium = r.placed.iter().filter(|it| it.name == "medium").count();
    assert_eq!(medium, 1024);
    assert_eq!(r.placed.len(), 1943);
    assert_eq!(r.unplaced.len(), 105);
}
