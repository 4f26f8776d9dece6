use hsnw::layer::Layer;

#[test]
fn base_list_of_every_tier() {
    let layer: Layer<2, 1, 1, 1> = Layer::Layer0 { l0_neighbors: [4, 5] };
    assert_eq!(layer.l0(), &[4, 5]);
    let layer: Layer<2, 1, 1, 1> = Layer::Layer1 { l0_neighbors: [1, 2], l1_neighbors: [3] };
    assert_eq!(layer.l0(), &[1, 2]);
    let layer: Layer<2, 1, 1, 1> = Layer::Layer2 { l0_neighbors: [6, 7], l1_neighbors: [3], l2_neighbors: [8] };
    assert_eq!(layer.l0(), &[6, 7]);
    let layer: Layer<2, 1, 1, 1> =
        Layer::Layer3 { l0_neighbors: [9, 0], l1_neighbors: [3], l2_neighbors: [8], l3_neighbors: [1] };
    assert_eq!(layer.l0(), &[9, 0]);
}

#[test]
fn writing_through_the_base_list() {
    let mut layer: Layer<2, 1, 1, 1> = Layer::Layer2 { l0_neighbors: [6, 7], l1_neighbors: [3], l2_neighbors: [8] };
    layer.l0_mut()[1] = 11;
    *layer.l0_mut() = [layer.l0()[1], 5];
    match layer {
        Layer::Layer2 { l0_neighbors, l1_neighbors, l2_neighbors } => {
            assert_eq!(l0_neighbors, [11, 5]);
            assert_eq!(l1_neighbors, [3]);
            assert_eq!(l2_neighbors, [8]);
        }
        _ => panic!("the tier changed"),
    }
}
