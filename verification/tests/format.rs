use binrw::BinWrite;
use mlp::strategy::Activation;
use mlp::{FormatError, Layer, Network};
use std::io::Cursor;

const MAGIC: &[u8; 8] = b"\0MLP_RS\n";

fn small_network() -> Network {
    Network {
        layers: vec![
            Layer {
                activation: Activation::LReLU(0.01f64.to_bits()),
                neurons: 2,
                inputs: 1,
                matrix: vec![0.5f64.to_bits(), (-0.25f64).to_bits()],
                biases: vec![0.0f64.to_bits(), 1.5f64.to_bits()],
            },
            Layer {
                activation: Activation::Sigmoid,
                neurons: 1,
                inputs: 2,
                matrix: vec![3.0f64.to_bits(), 4.0f64.to_bits()],
                biases: vec![(-1.0f64).to_bits()],
            },
        ],
    }
}

fn le(x: u64) -> Vec<u8> {
    x.to_le_bytes().to_vec()
}

#[test]
fn to_bytes_writes_the_format() {
    let mut expected = MAGIC.to_vec();
    expected.extend(le(2));
    expected.push(1);
    expected.extend(0.01f64.to_le_bytes());
    expected.extend(le(2));
    expected.extend(le(1));
    expected.extend(0.5f64.to_le_bytes());
    expected.extend((-0.25f64).to_le_bytes());
    expected.extend(0.0f64.to_le_bytes());
    expected.extend(1.5f64.to_le_bytes());
    expected.push(0);
    expected.extend(le(1));
    expected.extend(le(2));
    expected.extend(3.0f64.to_le_bytes());
    expected.extend(4.0f64.to_le_bytes());
    expected.extend((-1.0f64).to_le_bytes());
    assert_eq!(small_network().to_bytes(), expected);
}

#[test]
fn to_bytes_agrees_with_binrw_primitives() {
    let net = small_network();
    let mut c = Cursor::new(Vec::new());
    MAGIC.write_le(&mut c).unwrap();
    (net.layers.len() as u64).write_le(&mut c).unwrap();
    for l in &net.layers {
        match l.activation {
            Activation::Sigmoid => 0u8.write_le(&mut c).unwrap(),
            Activation::LReLU(a) => {
                1u8.write_le(&mut c).unwrap();
                f64::from_bits(a).write_le(&mut c).unwrap();
            }
            Activation::Linear => 2u8.write_le(&mut c).unwrap(),
            Activation::SoftMax => 3u8.write_le(&mut c).unwrap(),
        }
        (l.neurons as u64).write_le(&mut c).unwrap();
        (l.inputs as u64).write_le(&mut c).unwrap();
        for w in &l.matrix {
            f64::from_bits(*w).write_le(&mut c).unwrap();
        }
        for b in &l.biases {
            f64::from_bits(*b).write_le(&mut c).unwrap();
        }
    }
    assert_eq!(net.to_bytes(), c.into_inner());
}

#[test]
fn load_after_save_gives_back_the_network() {
    let net = small_network();
    let bytes = net.to_bytes();
    assert_eq!(Network::from_bytes(&bytes), Ok((net.clone(), bytes.len())));
    let mut with_tail = bytes.clone();
    with_tail.extend([9, 9, 9]);
    assert_eq!(Network::from_bytes(&with_tail), Ok((net, bytes.len())));
}

#[test]
fn load_after_save_of_every_activation() {
    for a in [
        Activation::Sigmoid,
        Activation::LReLU(0.0f64.to_bits()),
        Activation::Linear,
        Activation::SoftMax,
    ] {
        let net = Network {
            layers: vec![Layer {
                activation: a,
                neurons: 1,
                inputs: 1,
                matrix: vec![7],
                biases: vec![8],
            }],
        };
        let bytes = net.to_bytes();
        assert_eq!(Network::from_bytes(&bytes), Ok((net, bytes.len())));
    }
}

#[test]
fn empty_network_round_trips() {
    let net = Network { layers: vec![] };
    let bytes = net.to_bytes();
    let mut expected = MAGIC.to_vec();
    expected.extend(le(0));
    assert_eq!(bytes, expected);
    assert_eq!(Network::from_bytes(&bytes), Ok((net, 16)));
}

#[test]
fn save_after_load_gives_back_the_bytes_read() {
    let mut bytes = small_network().to_bytes();
    let k = bytes.len();
    bytes.extend([1, 2, 3, 4]);
    let (net, read) = Network::from_bytes(&bytes).unwrap();
    assert_eq!(read, k);
    assert_eq!(net.to_bytes(), bytes[..k].to_vec());
}

#[test]
fn short_input_is_unexpected_end() {
    assert_eq!(Network::from_bytes(&[]), Err(FormatError::UnexpectedEnd));
    assert_eq!(Network::from_bytes(&[0, 77, 76]), Err(FormatError::UnexpectedEnd));
    assert_eq!(Network::from_bytes(MAGIC), Err(FormatError::UnexpectedEnd));
    let bytes = small_network().to_bytes();
    for cut in 0..bytes.len() {
        assert_eq!(
            Network::from_bytes(&bytes[..cut]),
            Err(FormatError::UnexpectedEnd),
            "cut at {}",
            cut
        );
    }
}

#[test]
fn wrong_magic_is_bad_magic() {
    let mut bytes = small_network().to_bytes();
    bytes[3] = b'Q';
    assert_eq!(Network::from_bytes(&bytes), Err(FormatError::BadMagic));
    // a short but wrong header is still reported as a short input
    assert_eq!(Network::from_bytes(b"MLP"), Err(FormatError::UnexpectedEnd));
    assert_eq!(Network::from_bytes(b"12345678"), Err(FormatError::BadMagic));
}

#[test]
fn unknown_activation_tag() {
    let mut bytes = MAGIC.to_vec();
    bytes.extend(le(1));
    bytes.push(7);
    bytes.extend(le(0));
    bytes.extend(le(0));
    assert_eq!(
        Network::from_bytes(&bytes),
        Err(FormatError::BadActivationTag(7))
    );
}

#[test]
fn oversized_layer_is_size_overflow() {
    let mut bytes = MAGIC.to_vec();
    bytes.extend(le(1));
    bytes.push(2);
    bytes.extend(le(1 << 32));
    bytes.extend(le(1 << 32));
    assert_eq!(Network::from_bytes(&bytes), Err(FormatError::SizeOverflow));
}

#[test]
fn huge_layer_count_on_short_input_is_unexpected_end() {
    let mut bytes = MAGIC.to_vec();
    bytes.extend(le(u64::MAX));
    assert_eq!(Network::from_bytes(&bytes), Err(FormatError::UnexpectedEnd));
}

#[test]
fn layer_shapes_are_not_checked_against_each_other() {
    // the format holds each layer on its own; chaining is not its concern
    let net = Network {
        layers: vec![
            Layer {
                activation: Activation::Linear,
                neurons: 1,
                inputs: 1,
                matrix: vec![1],
                biases: vec![2],
            },
            Layer {
                activation: Activation::Linear,
                neurons: 1,
                inputs: 3,
                matrix: vec![1, 2, 3],
                biases: vec![4],
            },
        ],
    };
    let bytes = net.to_bytes();
    assert_eq!(Network::from_bytes(&bytes), Ok((net, bytes.len())));
}
