use skylink_network::fragmentation::{fragment_message, reassemble_bytes, reassemble_text, ReassemblyError};
use skylink_network::packet::{Fragment, FRAGMENT_DSIZE};

fn bytes_of(n: usize) -> Vec<u8> {
    (0..n).map(|i| (i % 251) as u8).collect()
}

#[test]
fn fragments_of_empty_message() {
    let frags = fragment_message(&Vec::new());
    assert!(frags.is_empty());
    assert_eq!(reassemble_bytes(&frags), Vec::<u8>::new());
}

#[test]
fn fragment_count_and_sizes() {
    let bytes = bytes_of(300);
    let frags = fragment_message(&bytes);
    assert_eq!(frags.len(), 3);
    for (i, f) in frags.iter().enumerate() {
        assert_eq!(f.fragment_index, i as u64);
        assert_eq!(f.total_n_fragments, 3);
    }
    assert_eq!(frags[0].length as usize, FRAGMENT_DSIZE);
    assert_eq!(frags[1].length, 128);
    assert_eq!(frags[2].length, 44);
    assert!(frags[2].data[44..].iter().all(|b| *b == 0));
    assert_eq!(&frags[2].data[..44], &bytes[256..300]);
}

#[test]
fn exact_multiple_of_fragment_size() {
    let bytes = bytes_of(256);
    let frags = fragment_message(&bytes);
    assert_eq!(frags.len(), 2);
    assert_eq!(frags[1].length, 128);
}

#[test]
fn round_trip_in_order() {
    let bytes = bytes_of(1000);
    let frags = fragment_message(&bytes);
    assert_eq!(reassemble_bytes(&frags), bytes);
}

#[test]
fn round_trip_any_order() {
    let bytes = bytes_of(700);
    let mut frags = fragment_message(&bytes);
    frags.reverse();
    frags.swap(0, 3);
    assert_eq!(reassemble_bytes(&frags), bytes);
}

#[test]
fn reassemble_text_ok() {
    let text = "ciao, drone network! ".repeat(20);
    let frags = fragment_message(&text.clone().into_bytes());
    assert_eq!(reassemble_text(&frags), Ok(text));
}

#[test]
fn reassemble_text_invalid_utf8() {
    let frags = fragment_message(&vec![0xff, 0xfe, 0x41]);
    let expected = String::from_utf8(vec![0xff, 0xfe, 0x41]).unwrap_err().to_string();
    assert_eq!(reassemble_text(&frags), Err(ReassemblyError::InvalidUtf8(expected.clone())));
    assert_eq!(expected, "invalid utf-8 sequence of 1 bytes from index 0");
}

#[test]
fn reassemble_text_oversized_fragment() {
    let f = Fragment { fragment_index: 0, total_n_fragments: 1, length: 200, data: [0u8; 128] };
    assert_eq!(reassemble_text(&vec![f]), Err(ReassemblyError::OversizedFragment));
}

#[test]
fn duplicate_fragment_counts_once() {
    let bytes = bytes_of(200);
    let mut frags = fragment_message(&bytes);
    frags.push(frags[0]);
    assert_eq!(reassemble_bytes(&frags), bytes);
}
