use renet::reassembly_fragment::{Fragment, FragmentConfig, FragmentError, ReassemblyFragment};
use renet::sequence_buffer::SequenceBuffer;

fn fragments_of(bytes: &[u8], sequence: u16, size: usize) -> Vec<Fragment> {
    let chunks: Vec<&[u8]> = bytes.chunks(size).collect();
    let n = chunks.len() as u8;
    chunks
        .iter()
        .enumerate()
        .map(|(id, chunk)| Fragment { sequence, fragment_id: id as u8, num_fragments: n, payload: chunk.to_vec() })
        .collect()
}

#[test]
fn fragment() {
    let config = FragmentConfig::default();
    let mut bytes = vec![7u8; 1000];
    bytes.extend(vec![255u8; 1000]);
    bytes.extend(vec![33u8; 1000]);
    let fragments = fragments_of(&bytes, 0, config.fragment_size);
    assert_eq!(3, fragments.len());

    let mut fragments_reassembly: SequenceBuffer<ReassemblyFragment> = SequenceBuffer::with_capacity(256);
    let result = fragments_reassembly.handle_fragment(fragments[0].clone(), 250_000, &config);
    assert!(matches!(result, Ok(None)));

    let result = fragments_reassembly.handle_fragment(fragments[1].clone(), 250_000, &config);
    assert!(matches!(result, Ok(None)));

    let result = fragments_reassembly.handle_fragment(fragments[2].clone(), 250_000, &config);
    let result = result.unwrap().unwrap();
    assert_eq!(result, bytes);
    assert_eq!(fragments_reassembly.num_entries(), 0);
}

#[test]
fn fragments_in_any_order() {
    let config = FragmentConfig::default();
    let bytes: Vec<u8> = (0..2500u32).map(|i| (i % 251) as u8).collect();
    let fragments = fragments_of(&bytes, 9, config.fragment_size);
    let mut buffer: SequenceBuffer<ReassemblyFragment> = SequenceBuffer::with_capacity(256);
    assert!(matches!(buffer.handle_fragment(fragments[2].clone(), 250_000, &config), Ok(None)));
    assert!(matches!(buffer.handle_fragment(fragments[0].clone(), 250_000, &config), Ok(None)));
    assert_eq!(buffer.handle_fragment(fragments[1].clone(), 250_000, &config), Ok(Some(bytes)));
}

#[test]
fn fragment_errors() {
    let config = FragmentConfig::default();
    let mut buffer: SequenceBuffer<ReassemblyFragment> = SequenceBuffer::with_capacity(256);
    let first = Fragment { sequence: 5, fragment_id: 0, num_fragments: 2, payload: vec![1; 1024] };
    assert_eq!(buffer.handle_fragment(first.clone(), 250_000, &config), Ok(None));
    assert_eq!(
        buffer.handle_fragment(first.clone(), 250_000, &config),
        Err(FragmentError::AlreadyProcessed { sequence: 5, id: 0 })
    );
    let wrong_total = Fragment { num_fragments: 3, ..first.clone() };
    assert_eq!(
        buffer.handle_fragment(wrong_total, 250_000, &config),
        Err(FragmentError::InvalidTotalFragment { sequence: 5, expected: 2, got: 3 })
    );
    let wrong_id = Fragment { fragment_id: 2, ..first.clone() };
    assert_eq!(
        buffer.handle_fragment(wrong_id, 250_000, &config),
        Err(FragmentError::InvalidFragmentId { sequence: 5, id: 2, total: 2 })
    );
    let too_many = Fragment { sequence: 6, fragment_id: 0, num_fragments: 250, payload: vec![1; 1024] };
    assert_eq!(
        buffer.handle_fragment(too_many, 250_000, &config),
        Err(FragmentError::ExceededMaxFragmentCount { sequence: 6, expected: 245, got: 250 })
    );
    let newer = Fragment { sequence: 1000, fragment_id: 0, num_fragments: 2, payload: vec![1; 1024] };
    assert_eq!(buffer.handle_fragment(newer, 250_000, &config), Ok(None));
    let old = Fragment { sequence: 700, fragment_id: 0, num_fragments: 2, payload: vec![1; 1024] };
    assert_eq!(buffer.handle_fragment(old, 250_000, &config), Err(FragmentError::OldSequence { sequence: 700 }));
}

#[test]
fn fragment_config_default() {
    let config = FragmentConfig::default();
    assert_eq!(config.fragment_above, 1024);
    assert_eq!(config.fragment_size, 1024);
    assert_eq!(config.reassembly_buffer_size, 256);
    let entry = ReassemblyFragment::new(3, 2, 1024);
    let _ = entry;
}
