use hush_vani::error::Error;
use hush_vani::weights::floats_from_le;
use hush_vani::{Weights, F32};

fn floats(x: &[F32]) -> Vec<f32> {
    x.iter().map(|v| f32::from_bits(v.to_bits())).collect()
}

fn blob(x: &[f32]) -> Vec<u8> {
    x.iter().flat_map(|v| v.to_le_bytes()).collect()
}

fn fails(bin: &[u8], manifest: &str) -> String {
    match Weights::from_bytes(bin, manifest) {
        Err(Error::Weights(m)) => m,
        Err(e) => panic!("another error: {}", e.message()),
        Ok(_) => panic!("no error"),
    }
}

#[test]
fn tensors_are_read_by_name() {
    let bin = blob(&[1.0, 2.0, 3.0, 4.0, 5.0, 6.0]);
    let w = Weights::from_bytes(&bin, "enc/a 2,2 0 4\n\n# note\nenc/b  4 2\nenc/c 1 5 1").unwrap();
    assert_eq!(floats(w.get("enc/a").unwrap()), [1.0, 2.0, 3.0, 4.0]);
    assert_eq!(w.shape("enc/a").unwrap(), [2, 2]);
    assert_eq!(floats(w.get("enc/b").unwrap()), [5.0, 6.0]);
    assert_eq!(w.shape("enc/b").unwrap(), [0usize; 0]);
    assert_eq!(floats(w.get("enc/c").unwrap()), [6.0]);
    assert!(!w.is_f16());
    match w.get("enc/d") {
        Err(Error::MissingTensor(n)) => assert_eq!(n, "enc/d"),
        _ => panic!("found"),
    }
    assert!(matches!(w.shape("enc/d"), Err(Error::MissingTensor(_))));
}

#[test]
fn the_last_line_of_a_name_counts() {
    let w = Weights::from_bytes(&blob(&[1.0, 2.0]), "a 1 0 1\r\na 1 1 1\r\n").unwrap();
    assert_eq!(floats(w.get("a").unwrap()), [2.0]);
}

#[test]
fn names_may_hold_spaces() {
    let w = Weights::from_bytes(&blob(&[1.0]), "a b c 1 0 1").unwrap();
    assert_eq!(floats(w.get("a b c").unwrap()), [1.0]);
}

#[test]
fn halves_are_widened() {
    let bin = [0x00, 0x3c, 0x00, 0xc0, 0x01, 0x00];
    let w = Weights::from_bytes(&bin, "#dtype f16\na 3 0 3").unwrap();
    assert!(w.is_f16());
    assert_eq!(floats(w.get("a").unwrap()), [1.0, -2.0, 2f32.powi(-24)]);
    assert_eq!(fails(&bin[..5], "#dtype f16\na 2 0 2"), "f16 blob length is not a multiple of 2");
}

#[test]
fn codes_are_scaled_block_by_block() {
    let mut bin = vec![1u8, 0xff, 127, 0x80, 3, 9];
    bin.extend(blob(&[0.5, 2.0, 10.0]));
    let w = Weights::from_bytes(&bin, "#dtype int8 payload 6\na 5 0 5 0 2\n").unwrap();
    assert_eq!(floats(w.get("a").unwrap()), [0.5, -0.5, 254.0, -256.0, 30.0]);
    let w = Weights::from_bytes(&bin, "#dtype int8 payload 6\na 2 4 2 2 64\nb 6 0 6 0 6").unwrap();
    assert_eq!(floats(w.get("a").unwrap()), [1.5, 4.5]);
    assert_eq!(floats(w.get("b").unwrap()), [0.5, -0.5, 63.5, -64.0, 1.5, 4.5]);
    let w = Weights::from_bytes(&bin, "#dtype int8 payload 6\nb 6 0 6 0 6\na 2 4 2 2 64\n").unwrap();
    assert_eq!(floats(w.get("a").unwrap()), [30.0, 90.0]);
}

#[test]
fn faults_have_their_messages() {
    let four = blob(&[1.0]);
    assert_eq!(fails(&four[..3], "a 1 0 1"), "f32 blob length is not a multiple of 4");
    assert_eq!(fails(&four, ""), "manifest contained no tensors");
    assert_eq!(fails(&four, "\n  \n # x\n"), "manifest contained no tensors");
    assert_eq!(fails(&four, "# x\na 1 0\n"), "malformed manifest line 2: \"a 1 0\"");
    assert_eq!(fails(&four, "a 1,x 0 1"), "malformed manifest line 1: \"a 1,x 0 1\"");
    assert_eq!(fails(&four, "a 1 -1 1"), "malformed manifest line 1: \"a 1 -1 1\"");
    assert_eq!(fails(&four, "a\t\"b\" 1 0 1 "), "malformed manifest line 1: \"a\\t\\\"b\\\" 1 0 1 \"");
    assert_eq!(fails(&four, "a 2 0 2"), "tensor a runs past end of blob");
    assert_eq!(
        fails(&four, "a 2 18446744073709551615 2"),
        "tensor a runs past end of blob"
    );
    let mut bin = vec![1u8, 2];
    bin.extend(blob(&[1.0]));
    assert_eq!(
        fails(&bin, "#dtype int8 payload 3\na 2 0 2 0 2"),
        "int8 scale table is not a multiple of 4 bytes"
    );
    assert_eq!(fails(&bin, "#dtype int8 payload 2\na 2 0 2 0 0"), "tensor a has a zero block length");
    assert_eq!(fails(&bin, "#dtype int8 payload 2\na 2 0 2 0 1"), "tensor a runs past the scale table");
    assert_eq!(fails(&bin, "#dtype int8 payload 2\na 3 0 3 0 3"), "tensor a runs past end of blob");
    assert_eq!(
        fails(&bin, "#dtype int8 payload 2\na 2 0 2"),
        "malformed manifest line 2: \"a 2 0 2\""
    );
}

#[test]
fn an_empty_blob_is_a_fault() {
    assert_eq!(fails(&[], ""), "manifest contained no tensors");
    assert_eq!(fails(&[], "#dtype f16"), "manifest contained no tensors");
    assert_eq!(fails(&[], "a 1 0 1"), "tensor a runs past end of blob");
    assert_eq!(fails(&[0, 0, 0, 0], "#dtype int8 payload 0\n"), "manifest contained no tensors");
    assert_eq!(fails(&[], "#dtype int8 payload x"), "int8 header needs `payload <n_elements>`");
}

#[test]
fn little_endian_numbers_are_read_in_order() {
    assert_eq!(floats(&floats_from_le(&blob(&[1.5, -2.25]))), [1.5, -2.25]);
}
