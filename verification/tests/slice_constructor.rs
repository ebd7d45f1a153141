use renet::error::ChannelError;
use renet::packet::SLICE_SIZE;
use renet::slice_constructor::SliceConstructor;

#[test]
fn slices_make_the_message() {
    let mut constructor = SliceConstructor::new(3, 2);
    assert_eq!(constructor.num_slices, 2);
    assert_eq!(constructor.process_slice(1, &[9; 5]), Ok(None));
    let result = constructor.process_slice(0, &vec![4; SLICE_SIZE]).unwrap().unwrap();
    assert_eq!(result.len(), SLICE_SIZE + 5);
    assert!(result[..SLICE_SIZE].iter().all(|&b| b == 4));
    assert!(result[SLICE_SIZE..].iter().all(|&b| b == 9));
}

#[test]
fn slices_of_wrong_size_are_refused() {
    let mut constructor = SliceConstructor::new(0, 2);
    assert_eq!(constructor.process_slice(0, &[1; 10]), Err(ChannelError::InvalidSliceMessage));
    assert_eq!(constructor.process_slice(1, &vec![1; SLICE_SIZE + 1]), Err(ChannelError::InvalidSliceMessage));
    assert_eq!(constructor.process_slice(1, &vec![1; SLICE_SIZE]), Ok(None));
    assert_eq!(constructor.process_slice(1, &vec![2; SLICE_SIZE]), Ok(None));
}

#[test]
fn single_slice_message() {
    let mut constructor = SliceConstructor::new(1, 1);
    assert_eq!(constructor.process_slice(0, &[1, 2, 3]), Ok(Some(vec![1, 2, 3])));
}
