use gwr_models::dtype::DataType;
use gwr_models::error::ModelError;
use gwr_models::partition::{partition_across_dimensions, DimPartition};
use gwr_models::tensor::{shape_string, HasShape, Shape, Tensor};
use gwr_models::tensor_view::TensorView;

fn tensor(dims: &[usize], dtype: DataType) -> Tensor {
    Tensor::new(dims, &dtype, 0).unwrap()
}

#[test]
fn rejects_invalid_shapes_and_storage_sizes() {
    assert!(Shape::new(&[usize::MAX, 2]).is_err());
    assert!(Shape::new(&[4, 0]).is_err());
    assert!(Tensor::new(&[usize::MAX / 2], &DataType::Int64, 0).is_err());
}

#[test]
fn preserves_scalar_shapes() {
    let scalar = Shape::new(&[]).unwrap();
    assert_eq!(scalar.num_elements(), 1);
    assert_eq!(Tensor::new(&[], &DataType::Fp32, 0).unwrap().num_bytes(), 4);
}

#[test]
fn validates_tensor_addresses() {
    assert!(Tensor::new(&[2], &DataType::Int8, u64::MAX).is_err());
    assert!(Tensor::new(&[1], &DataType::Int8, u64::MAX).is_ok());

    let mut tensor = Tensor::new(&[2], &DataType::Int8, 0).unwrap();
    assert!(tensor.set_addr(u64::MAX).is_err());
    assert_eq!(tensor.addr(), 0);
}

#[test]
fn shape_errors_name_the_problem() {
    assert_eq!(Shape::new(&[4, 0]).unwrap_err(), ModelError::ZeroSizedDimension { dimension: 1 });
    assert_eq!(Shape::new(&[usize::MAX, 2]).unwrap_err(), ModelError::ElementCountOverflow);
    assert_eq!(Tensor::new(&[2], &DataType::Int8, u64::MAX).unwrap_err(), ModelError::AddressSpaceExceeded);
    assert_eq!(Tensor::new(&[usize::MAX / 2], &DataType::Int64, 0).unwrap_err(), ModelError::StorageSizeOverflow);
}

#[test]
fn packs_small_elements() {
    assert_eq!(Tensor::new(&[3], &DataType::Int4, 0).unwrap().num_bytes(), 2);
    assert_eq!(Tensor::new(&[2, 3], &DataType::Fp16, 0).unwrap().num_bytes(), 12);
    assert_eq!(DataType::Int64.num_bits(), 64);
    let shape = Shape::new(&[2, 3, 4]).unwrap();
    assert_eq!(shape.get_dim(5, 0), 1);
    assert_eq!(shape.get_dim(5, 4), 4);
    assert_eq!(HasShape::num_elements(&shape), 24);
}

#[test]
fn writes_shapes_with_multiplication_signs() {
    assert_eq!(shape_string(&[2, 30, 4]), "2×30×4");
    assert_eq!(shape_string(&[7]), "7");
    assert_eq!(shape_string(&[]), "");
}

#[test]
fn tensor_ids_can_be_set() {
    let tensor = Tensor::new(&[2], &DataType::Int8, 0).unwrap().with_id("weights".to_string());
    assert_eq!(tensor.id(), Some("weights"));
    let mut other = tensor.clone();
    other.set_id("bias".to_string());
    assert_eq!(other.id(), Some("bias"));
    assert_eq!(tensor.id(), Some("weights"));
}

#[test]
fn generates_large_partitionings_lazily() {
    let mut partitions = partition_across_dimensions(&[usize::MAX], &[0], usize::MAX);

    assert_eq!(partitions.next(), Some(vec![DimPartition { dim: 0, offset: 0, num_elements: 1 }]));
    assert_eq!(partitions.next(), Some(vec![DimPartition { dim: 0, offset: 1, num_elements: 1 }]));
    assert_eq!(partitions.len(), usize::MAX - 2);
}

#[test]
fn partitions_spread_the_remainder_over_the_first_parts() {
    let mut partitions = partition_across_dimensions(&[10, 12], &[0], 4);
    assert_eq!(partitions.len(), 4);
    let offsets: Vec<(usize, usize)> = (0..4)
        .map(|_| {
            let p = partitions.next().unwrap();
            (p[0].offset, p[0].num_elements)
        })
        .collect();
    assert_eq!(offsets, vec![(0, 3), (3, 3), (6, 2), (8, 2)]);
    assert_eq!(partitions.next(), None);
}

#[test]
fn rejects_invalid_views() {
    let tensor = tensor(&[4, 4], DataType::Fp32);
    assert!(TensorView::new(tensor.clone(), &[1], &[0, 0]).is_err());
    assert!(TensorView::new(tensor.clone(), &[1, 1], &[0]).is_err());
    assert!(TensorView::new(tensor.clone(), &[1, 1], &[usize::MAX, 0]).is_err());
    assert!(TensorView::new(tensor, &[3, 1], &[2, 0]).is_err());
}

#[test]
fn view_errors_name_the_problem() {
    let tensor = tensor(&[4, 4], DataType::Fp32);
    assert_eq!(TensorView::new(tensor.clone(), &[1], &[0, 0]).unwrap_err(), ModelError::ViewRankMismatch);
    assert_eq!(TensorView::new(tensor.clone(), &[1, 1], &[0]).unwrap_err(), ModelError::ViewOffsetRankMismatch);
    assert_eq!(TensorView::new(tensor.clone(), &[1, 1], &[usize::MAX, 0]).unwrap_err(), ModelError::ViewExtentOverflow);
    assert_eq!(TensorView::new(tensor, &[3, 1], &[2, 0]).unwrap_err(), ModelError::ViewOutOfRange { dimension: 0 });
}

#[test]
fn describes_strided_views() {
    let tensor = tensor(&[4, 4], DataType::Int4);
    let view = TensorView::new(tensor, &[3, 1], &[1, 1]).unwrap();
    assert_eq!(view.layout().first_element(), 5);
    assert_eq!(view.layout().elements_per_range(), 1);
    assert_eq!(view.layout().bits_per_element(), 4);
    assert_eq!(view.layout().num_access_bytes(), 3);
    assert_eq!(view.layout().strides().len(), 1);
    assert_eq!(view.layout().strides()[0].count(), 3);
    assert_eq!(view.layout().strides()[0].stride_elements(), 4);
    assert!(!view.is_full_view());
}

#[test]
fn partitions_of_views_follow_the_output() {
    let tensor = tensor(&[4, 6], DataType::Int8);
    let view = TensorView::from_output_partitions(tensor.clone(), 3, &[DimPartition { dim: 2, offset: 2, num_elements: 3 }]).unwrap();
    assert_eq!(view.offsets(), &[0, 2]);
    assert_eq!(view.shape().dims(), &[4, 3]);
    let err = TensorView::from_output_partition(tensor, 2, 1, 4, 3).unwrap_err();
    assert_eq!(err, ModelError::PartitionOutOfRange);
}
