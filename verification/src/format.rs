//! The binary model format.
//!
//! A saved network is, in order and little-endian throughout:
//! - the magic bytes `"\0MLP_RS\n"`;
//! - the number of layers, as a `u64`;
//! - each layer: its activation (a tag byte 0 = Sigmoid, 1 = LReLU followed by
//!   the 8 bytes of the leak factor, 2 = Linear, 3 = SoftMax), its neuron
//!   count and input count as `u64`s, its `neurons * inputs` weights row by
//!   row and its `neurons` biases, 8 bytes each.
use crate::bytes::{
    le_u64_at, lemma_le_u64_bytes_roundtrip, lemma_u64_le_roundtrip, lemma_words_le_bytes_index,
    lemma_words_le_bytes_len, push_u64_le, push_words_le, read_u64_le, u64_le_bytes, words_le_bytes,
};
use crate::error::FormatError;
use crate::layer::{Layer, LayerView};
use crate::network::{spec_layers_wf, Network};
use crate::strategy::Activation;
use vstd::prelude::*;

verus! {

/// The eight bytes that open every saved network: `"\0MLP_RS\n"`.
pub open spec fn spec_magic() -> Seq<u8> {
    seq![0u8, 77u8, 76u8, 80u8, 95u8, 82u8, 83u8, 10u8]
}

/// The bytes of an activation: its tag, and for LReLU the leak factor.
pub open spec fn activation_bytes(a: Activation) -> Seq<u8> {
    match a {
        Activation::Sigmoid => seq![0u8],
        Activation::LReLU(alpha) => seq![1u8] + u64_le_bytes(alpha),
        Activation::Linear => seq![2u8],
        Activation::SoftMax => seq![3u8],
    }
}

/// The bytes of a layer.
pub open spec fn layer_bytes(l: LayerView) -> Seq<u8> {
    activation_bytes(l.activation) + u64_le_bytes(l.neurons as u64) + u64_le_bytes(
        l.inputs as u64,
    ) + words_le_bytes(l.matrix) + words_le_bytes(l.biases)
}

/// The bytes of a sequence of layers, one after the other.
pub open spec fn layers_bytes(ls: Seq<LayerView>) -> Seq<u8>
    decreases ls.len(),
{
    if ls.len() == 0 {
        Seq::empty()
    } else {
        layers_bytes(ls.drop_last()) + layer_bytes(ls.last())
    }
}

/// The bytes of a saved network with layers `ls`.
pub open spec fn network_bytes(ls: Seq<LayerView>) -> Seq<u8> {
    spec_magic() + u64_le_bytes(ls.len() as u64) + layers_bytes(ls)
}

/// Reads an activation at position `p` of `b`: the activation and the
/// position after it.
pub open spec fn parse_activation(b: Seq<u8>, p: int) -> Result<(Activation, int), FormatError> {
    if p >= b.len() {
        Err(FormatError::UnexpectedEnd)
    } else if b[p] == 0 {
        Ok((Activation::Sigmoid, p + 1))
    } else if b[p] == 1 {
        if p + 9 <= b.len() {
            Ok((Activation::LReLU(le_u64_at(b, p + 1)), p + 9))
        } else {
            Err(FormatError::UnexpectedEnd)
        }
    } else if b[p] == 2 {
        Ok((Activation::Linear, p + 1))
    } else if b[p] == 3 {
        Ok((Activation::SoftMax, p + 1))
    } else {
        Err(FormatError::BadActivationTag(b[p]))
    }
}

/// Reads `count` words at position `p` of `b`.
pub open spec fn parse_words(b: Seq<u8>, p: int, count: nat) -> Result<(Seq<u64>, int), FormatError> {
    if p + 8 * count <= b.len() {
        Ok((Seq::new(count, |k: int| le_u64_at(b, p + 8 * k)), p + 8 * count))
    } else {
        Err(FormatError::UnexpectedEnd)
    }
}

/// Reads a layer at position `p` of `b`.
pub open spec fn parse_layer(b: Seq<u8>, p: int) -> Result<(LayerView, int), FormatError> {
    match parse_activation(b, p) {
        Err(e) => Err(e),
        Ok((activation, q)) => {
            if q + 16 > b.len() {
                Err(FormatError::UnexpectedEnd)
            } else {
                let neurons = le_u64_at(b, q);
                let inputs = le_u64_at(b, q + 8);
                if neurons > usize::MAX || inputs > usize::MAX || neurons * inputs > usize::MAX {
                    Err(FormatError::SizeOverflow)
                } else {
                    match parse_words(b, q + 16, (neurons * inputs) as nat) {
                        Err(e) => Err(e),
                        Ok((matrix, r)) => match parse_words(b, r, neurons as nat) {
                            Err(e) => Err(e),
                            Ok((biases, t)) => Ok(
                                (
                                    LayerView {
                                        activation,
                                        neurons: neurons as usize,
                                        inputs: inputs as usize,
                                        matrix,
                                        biases,
                                    },
                                    t,
                                ),
                            ),
                        },
                    }
                }
            }
        },
    }
}

/// Reads `count` layers, one after the other, from position `p` of `b`.
pub open spec fn parse_layers(b: Seq<u8>, p: int, count: nat) -> Result<(Seq<LayerView>, int), FormatError>
    decreases count,
{
    if count == 0 {
        Ok((Seq::empty(), p))
    } else {
        match parse_layers(b, p, (count - 1) as nat) {
            Err(e) => Err(e),
            Ok((ls, q)) => match parse_layer(b, q) {
                Err(e) => Err(e),
                Ok((l, r)) => Ok((ls.push(l), r)),
            },
        }
    }
}

/// Reads a saved network from the start of `b`: its layers and the number
/// of bytes it takes. Bytes after the network are left unread.
pub open spec fn parse_network(b: Seq<u8>) -> Result<(Seq<LayerView>, int), FormatError> {
    if b.len() < 8 {
        Err(FormatError::UnexpectedEnd)
    } else if b.subrange(0, 8) != spec_magic() {
        Err(FormatError::BadMagic)
    } else if b.len() < 16 {
        Err(FormatError::UnexpectedEnd)
    } else {
        parse_layers(b, 16, le_u64_at(b, 8) as nat)
    }
}

/// Appends the bytes of `a` to `out`.
fn push_activation(out: &mut Vec<u8>, a: &Activation)
    ensures
        final(out)@ == old(out)@ + activation_bytes(*a),
{
    match a {
        Activation::Sigmoid => out.push(0),
        Activation::LReLU(alpha) => {
            out.push(1);
            push_u64_le(out, *alpha);
        },
        Activation::Linear => out.push(2),
        Activation::SoftMax => out.push(3),
    }
    assert(final(out)@ =~= old(out)@ + activation_bytes(*a));
}

/// Appends the bytes of `l` to `out`.
fn push_layer(out: &mut Vec<u8>, l: &Layer)
    ensures
        final(out)@ == old(out)@ + layer_bytes(l@),
{
    push_activation(out, &l.activation);
    push_u64_le(out, l.neurons as u64);
    push_u64_le(out, l.inputs as u64);
    push_words_le(out, l.matrix.as_slice());
    push_words_le(out, l.biases.as_slice());
    assert(final(out)@ =~= old(out)@ + layer_bytes(l@));
}

impl Network {
    /// The bytes of this network in the binary model format.
    pub fn to_bytes(&self) -> (r: Vec<u8>)
        ensures
            r@ == network_bytes(self@),
    {
        let mut out: Vec<u8> = Vec::new();
        out.push(0);
        out.push(77);
        out.push(76);
        out.push(80);
        out.push(95);
        out.push(82);
        out.push(83);
        out.push(10);
        let n = self.layers.len();
        push_u64_le(&mut out, n as u64);
        let ghost head = out@;
        assert(head =~= spec_magic() + u64_le_bytes(n as u64));
        let mut i: usize = 0;
        assert(self@.take(0) =~= Seq::<LayerView>::empty());
        assert(out@ =~= head + layers_bytes(self@.take(0)));
        while i < n
            invariant
                n == self.layers@.len(),
                n == self@.len(),
                i <= n,
                head == spec_magic() + u64_le_bytes(n as u64),
                out@ == head + layers_bytes(self@.take(i as int)),
            decreases n - i,
        {
            push_layer(&mut out, &self.layers[i]);
            assert(self@.take(i + 1).drop_last() =~= self@.take(i as int));
            i = i + 1;
            assert(out@ =~= head + layers_bytes(self@.take(i as int)));
        }
        assert(self@.take(n as int) =~= self@);
        out
    }
}

/// Reads an activation at position `p` of `b`.
fn read_activation(b: &[u8], p: usize) -> (r: Result<(Activation, usize), FormatError>)
    requires
        p <= b@.len(),
    ensures
        match r {
            Ok((a, q)) => parse_activation(b@, p as int) == Ok::<(Activation, int), FormatError>(
                (a, q as int),
            ),
            Err(e) => parse_activation(b@, p as int) == Err::<(Activation, int), FormatError>(e),
        },
{
    if p >= b.len() {
        return Err(FormatError::UnexpectedEnd);
    }
    let tag = b[p];
    if tag == 0 {
        Ok((Activation::Sigmoid, p + 1))
    } else if tag == 1 {
        if b.len() - p >= 9 {
            let alpha = read_u64_le(b, p + 1);
            Ok((Activation::LReLU(alpha), p + 9))
        } else {
            Err(FormatError::UnexpectedEnd)
        }
    } else if tag == 2 {
        Ok((Activation::Linear, p + 1))
    } else if tag == 3 {
        Ok((Activation::SoftMax, p + 1))
    } else {
        Err(FormatError::BadActivationTag(tag))
    }
}

/// Reads `count` words at position `p` of `b`.
fn read_words(b: &[u8], p: usize, count: usize) -> (r: Result<(Vec<u64>, usize), FormatError>)
    requires
        p <= b@.len(),
    ensures
        match r {
            Ok((ws, q)) => parse_words(b@, p as int, count as nat) == Ok::<
                (Seq<u64>, int),
                FormatError,
            >((ws@, q as int)),
            Err(e) => parse_words(b@, p as int, count as nat) == Err::<(Seq<u64>, int), FormatError>(
                e,
            ),
        },
{
    if count > (b.len() - p) / 8 {
        return Err(FormatError::UnexpectedEnd);
    }
    let mut ws: Vec<u64> = Vec::new();
    let mut i: usize = 0;
    let mut q: usize = p;
    let len = b.len();
    while i < count
        invariant
            len == b@.len(),
            p + 8 * count <= b@.len(),
            i <= count,
            q == p + 8 * i,
            ws@ == Seq::new(i as nat, |k: int| le_u64_at(b@, p + 8 * k)),
        decreases count - i,
    {
        ws.push(read_u64_le(b, q));
        q = q + 8;
        i = i + 1;
        assert(ws@ =~= Seq::new(i as nat, |k: int| le_u64_at(b@, p + 8 * k)));
    }
    Ok((ws, q))
}

/// Reads a layer at position `p` of `b`.
fn read_layer(b: &[u8], p: usize) -> (r: Result<(Layer, usize), FormatError>)
    requires
        p <= b@.len(),
    ensures
        match r {
            Ok((l, q)) => parse_layer(b@, p as int) == Ok::<(LayerView, int), FormatError>(
                (l@, q as int),
            ),
            Err(e) => parse_layer(b@, p as int) == Err::<(LayerView, int), FormatError>(e),
        },
{
    let (activation, q) = match read_activation(b, p) {
        Ok(v) => v,
        Err(e) => return Err(e),
    };
    if b.len() - q < 16 {
        return Err(FormatError::UnexpectedEnd);
    }
    let neurons64 = read_u64_le(b, q);
    let inputs64 = read_u64_le(b, q + 8);
    if neurons64 > usize::MAX as u64 || inputs64 > usize::MAX as u64 {
        return Err(FormatError::SizeOverflow);
    }
    let neurons = neurons64 as usize;
    let inputs = inputs64 as usize;
    let size = match neurons.checked_mul(inputs) {
        Some(size) => size,
        None => return Err(FormatError::SizeOverflow),
    };
    let (matrix, r) = match read_words(b, q + 16, size) {
        Ok(v) => v,
        Err(e) => return Err(e),
    };
    let (biases, t) = match read_words(b, r, neurons) {
        Ok(v) => v,
        Err(e) => return Err(e),
    };
    let layer = Layer { activation, neurons, inputs, matrix, biases };
    Ok((layer, t))
}

/// Once reading the first `i` layers fails, reading more layers fails the
/// same way.
proof fn lemma_parse_layers_err(b: Seq<u8>, p: int, i: nat, n: nat)
    requires
        i <= n,
        parse_layers(b, p, i) is Err,
    ensures
        parse_layers(b, p, n) == parse_layers(b, p, i),
    decreases n,
{
    if n > i {
        lemma_parse_layers_err(b, p, i, (n - 1) as nat);
    }
}

impl Network {
    /// Reads a network saved in the binary model format from the start of
    /// `b`: the network and the number of bytes it took. Bytes after it are
    /// left unread.
    pub fn from_bytes(b: &[u8]) -> (r: Result<(Network, usize), FormatError>)
        ensures
            match r {
                Ok((net, k)) => parse_network(b@) == Ok::<(Seq<LayerView>, int), FormatError>(
                    (net@, k as int),
                ),
                Err(e) => parse_network(b@) == Err::<(Seq<LayerView>, int), FormatError>(e),
            },
    {
        if b.len() < 8 {
            return Err(FormatError::UnexpectedEnd);
        }
        if !(b[0] == 0 && b[1] == 77 && b[2] == 76 && b[3] == 80 && b[4] == 95 && b[5] == 82 && b[6]
            == 83 && b[7] == 10) {
            proof {
                let head = b@.subrange(0, 8);
                assert(head[0] == b@[0] && head[1] == b@[1] && head[2] == b@[2] && head[3] == b@[3]);
                assert(head[4] == b@[4] && head[5] == b@[5] && head[6] == b@[6] && head[7] == b@[7]);
            }
            return Err(FormatError::BadMagic);
        }
        assert(b@.subrange(0, 8) =~= spec_magic());
        if b.len() < 16 {
            return Err(FormatError::UnexpectedEnd);
        }
        let count = read_u64_le(b, 8);
        let mut layers: Vec<Layer> = Vec::new();
        let mut p: usize = 16;
        let mut i: u64 = 0;
        assert(layers@.map_values(|l: Layer| l@) =~= Seq::<LayerView>::empty());
        while i < count
            invariant
                16 <= p <= b@.len(),
                b@.subrange(0, 8) == spec_magic(),
                i <= count,
                count == le_u64_at(b@, 8),
                parse_layers(b@, 16, i as nat) == Ok::<(Seq<LayerView>, int), FormatError>(
                    (layers@.map_values(|l: Layer| l@), p as int),
                ),
            decreases count - i,
        {
            match read_layer(b, p) {
                Ok((l, q)) => {
                    proof {
                        assert(layers@.push(l).map_values(|l: Layer| l@) =~= layers@.map_values(
                            |l: Layer| l@,
                        ).push(l@));
                        assert(q <= b@.len()) by {
                            lemma_parse_layer_len(b@, p as int);
                        }
                    }
                    layers.push(l);
                    p = q;
                    i = i + 1;
                },
                Err(e) => {
                    proof {
                        assert(parse_layers(b@, 16, (i + 1) as nat) == Err::<
                            (Seq<LayerView>, int),
                            FormatError,
                        >(e));
                        lemma_parse_layers_err(b@, 16, (i + 1) as nat, count as nat);
                        assert(parse_network(b@) == parse_layers(b@, 16, count as nat));
                    }
                    return Err(e);
                },
            }
        }
        Ok((Network { layers }, p))
    }
}

/// A layer read from `b` ends within `b`, after where it starts.
proof fn lemma_parse_layer_len(b: Seq<u8>, p: int)
    requires
        0 <= p,
    ensures
        parse_layer(b, p) matches Ok((_, q)) ==> p < q <= b.len(),
{
}

/// The two parts of a concatenation stand one after the other where the
/// concatenation stands.
proof fn lemma_subrange_concat(b: Seq<u8>, p: int, x: Seq<u8>, y: Seq<u8>)
    requires
        0 <= p,
        p + x.len() + y.len() <= b.len(),
        b.subrange(p, p + x.len() + y.len()) == x + y,
    ensures
        b.subrange(p, p + x.len()) == x,
        b.subrange(p + x.len(), p + x.len() + y.len()) == y,
{
    assert forall|i: int| 0 <= i < x.len() implies b.subrange(p, p + x.len())[i] == x[i] by {
        assert(b.subrange(p, p + x.len() + y.len())[i] == (x + y)[i]);
    }
    assert forall|i: int| 0 <= i < y.len() implies b.subrange(
        p + x.len(),
        p + x.len() + y.len(),
    )[i] == y[i] by {
        assert(b.subrange(p, p + x.len() + y.len())[x.len() + i] == (x + y)[x.len() + i]);
        assert(b.subrange(p, p + x.len() + y.len())[x.len() + i] == b[p + x.len() + i]);
        assert((x + y)[x.len() + i] == y[i]);
    }
    assert(b.subrange(p, p + x.len()) =~= x);
    assert(b.subrange(p + x.len(), p + x.len() + y.len()) =~= y);
}

/// The word at `q` is `x` where the bytes of `x` stand.
proof fn lemma_le_u64_at_of(b: Seq<u8>, q: int, x: u64)
    requires
        0 <= q,
        q + 8 <= b.len(),
        b.subrange(q, q + 8) == u64_le_bytes(x),
    ensures
        le_u64_at(b, q) == x,
{
    lemma_u64_le_roundtrip(x);
    let e = u64_le_bytes(x);
    assert(b.subrange(q, q + 8)[0] == b[q] && b.subrange(q, q + 8)[1] == b[q + 1]);
    assert(b.subrange(q, q + 8)[2] == b[q + 2] && b.subrange(q, q + 8)[3] == b[q + 3]);
    assert(b.subrange(q, q + 8)[4] == b[q + 4] && b.subrange(q, q + 8)[5] == b[q + 5]);
    assert(b.subrange(q, q + 8)[6] == b[q + 6] && b.subrange(q, q + 8)[7] == b[q + 7]);
}

/// Reading words where the bytes of `ws` stand gives `ws`.
proof fn lemma_parse_words_of(b: Seq<u8>, q: int, ws: Seq<u64>)
    requires
        0 <= q,
        q + 8 * ws.len() <= b.len(),
        b.subrange(q, q + 8 * ws.len()) == words_le_bytes(ws),
    ensures
        parse_words(b, q, ws.len()) == Ok::<(Seq<u64>, int), FormatError>((ws, q + 8 * ws.len())),
{
    lemma_words_le_bytes_len(ws);
    let wb = words_le_bytes(ws);
    assert forall|k: int| 0 <= k < ws.len() implies le_u64_at(b, q + 8 * k) == ws[k] by {
        lemma_words_le_bytes_index(ws, k);
        let sb = b.subrange(q + 8 * k, q + 8 * k + 8);
        let sw = wb.subrange(8 * k, 8 * k + 8);
        assert forall|i: int| 0 <= i < 8 implies #[trigger] sb[i] == sw[i] by {
            assert(b.subrange(q, q + 8 * ws.len())[8 * k + i] == wb[8 * k + i]);
        }
        assert(sb =~= sw);
        lemma_le_u64_at_of(b, q + 8 * k, ws[k]);
    }
    assert(Seq::new(ws.len(), |k: int| le_u64_at(b, q + 8 * k)) =~= ws);
}

/// Reading a layer where the bytes of a well-formed layer `l` stand gives `l`.
proof fn lemma_parse_layer_of(b: Seq<u8>, p: int, l: LayerView)
    requires
        l.wf(),
        0 <= p,
        p + layer_bytes(l).len() <= b.len(),
        b.subrange(p, p + layer_bytes(l).len()) == layer_bytes(l),
    ensures
        parse_layer(b, p) == Ok::<(LayerView, int), FormatError>((l, p + layer_bytes(l).len())),
{
    let a = activation_bytes(l.activation);
    let n = u64_le_bytes(l.neurons as u64);
    let i = u64_le_bytes(l.inputs as u64);
    let m = words_le_bytes(l.matrix);
    let bs = words_le_bytes(l.biases);
    lemma_words_le_bytes_len(l.matrix);
    lemma_words_le_bytes_len(l.biases);
    lemma_subrange_concat(b, p, a + n + i + m, bs);
    lemma_subrange_concat(b, p, a + n + i, m);
    lemma_subrange_concat(b, p, a + n, i);
    lemma_subrange_concat(b, p, a, n);
    let q = p + a.len();
    match l.activation {
        Activation::LReLU(alpha) => {
            lemma_subrange_concat(b, p, seq![1u8], u64_le_bytes(alpha));
            assert(b.subrange(p, p + 1)[0] == b[p]);
            lemma_le_u64_at_of(b, p + 1, alpha);
        },
        _ => {
            assert(b.subrange(p, p + 1)[0] == b[p]);
        },
    }
    assert(parse_activation(b, p) == Ok::<(Activation, int), FormatError>((l.activation, q)));
    lemma_le_u64_at_of(b, q, l.neurons as u64);
    lemma_le_u64_at_of(b, q + 8, l.inputs as u64);
    lemma_parse_words_of(b, q + 16, l.matrix);
    lemma_parse_words_of(b, q + 16 + m.len(), l.biases);
}

/// Reading `ls.len()` layers where the bytes of well-formed layers `ls`
/// stand gives `ls`.
proof fn lemma_parse_layers_of(b: Seq<u8>, p: int, ls: Seq<LayerView>)
    requires
        spec_layers_wf(ls),
        0 <= p,
        p + layers_bytes(ls).len() <= b.len(),
        b.subrange(p, p + layers_bytes(ls).len()) == layers_bytes(ls),
    ensures
        parse_layers(b, p, ls.len()) == Ok::<(Seq<LayerView>, int), FormatError>(
            (ls, p + layers_bytes(ls).len()),
        ),
    decreases ls.len(),
{
    if ls.len() == 0 {
        assert(ls =~= Seq::<LayerView>::empty());
    } else {
        let front = ls.drop_last();
        assert(spec_layers_wf(front)) by {
            assert forall|i: int| 0 <= i < front.len() implies (#[trigger] front[i]).wf() by {
                assert(front[i] == ls[i]);
            }
        }
        assert(ls.last() == ls[ls.len() - 1]);
        lemma_subrange_concat(b, p, layers_bytes(front), layer_bytes(ls.last()));
        lemma_parse_layers_of(b, p, front);
        lemma_parse_layer_of(b, p + layers_bytes(front).len(), ls.last());
        assert(front.push(ls.last()) =~= ls);
    }
}

/// Loading what was saved gives back the network: reading the bytes of a
/// network whose layers are well-formed, whatever bytes follow them, gives
/// back its layers and the length of those bytes.
pub proof fn law_load_after_save(ls: Seq<LayerView>, rest: Seq<u8>)
    requires
        spec_layers_wf(ls),
        ls.len() <= u64::MAX,
    ensures
        parse_network(network_bytes(ls) + rest) == Ok::<(Seq<LayerView>, int), FormatError>(
            (ls, network_bytes(ls).len() as int),
        ),
{
    let bytes = network_bytes(ls);
    let b = bytes + rest;
    let lb = layers_bytes(ls);
    assert(b.subrange(0, 8) =~= spec_magic());
    assert(b.subrange(8, 16) =~= u64_le_bytes(ls.len() as u64));
    lemma_le_u64_at_of(b, 8, ls.len() as u64);
    assert(b.subrange(16, 16 + lb.len() as int) =~= lb);
    lemma_parse_layers_of(b, 16, ls);
}

/// The bytes read as words are the bytes of those words.
proof fn lemma_parse_words_bytes(b: Seq<u8>, p: int, count: nat)
    requires
        0 <= p,
    ensures
        parse_words(b, p, count) matches Ok((ws, q)) ==> {
            &&& q == p + 8 * count
            &&& ws.len() == count
            &&& words_le_bytes(ws) == b.subrange(p, q)
        },
    decreases count,
{
    if p + 8 * count <= b.len() {
        let f = |k: int| le_u64_at(b, p + 8 * k);
        let ws = Seq::new(count, f);
        if count == 0 {
            assert(b.subrange(p, p) =~= Seq::<u8>::empty());
        } else {
            let c1 = (count - 1) as nat;
            lemma_parse_words_bytes(b, p, c1);
            assert(ws.drop_last() =~= Seq::new(c1, f));
            lemma_le_u64_bytes_roundtrip(b, p + 8 * c1);
            assert(b.subrange(p, p + 8 * c1) + b.subrange(p + 8 * c1, p + 8 * count) =~= b.subrange(
                p,
                p + 8 * count,
            ));
        }
    }
}

/// The bytes read as a layer are the bytes of that layer, and it is
/// well-formed.
proof fn lemma_parse_layer_bytes(b: Seq<u8>, p: int)
    requires
        0 <= p,
    ensures
        parse_layer(b, p) matches Ok((l, q)) ==> {
            &&& p < q <= b.len()
            &&& l.wf()
            &&& layer_bytes(l) == b.subrange(p, q)
        },
{
    if let Ok((l, t)) = parse_layer(b, p) {
        let (act, q) = parse_activation(b, p).unwrap();
        let neurons = le_u64_at(b, q);
        let inputs = le_u64_at(b, q + 8);
        let size = (neurons * inputs) as nat;
        let (m, r) = parse_words(b, q + 16, size).unwrap();
        lemma_parse_words_bytes(b, q + 16, size);
        lemma_parse_words_bytes(b, r, neurons as nat);
        let a = activation_bytes(act);
        if b[p] == 1 {
            lemma_le_u64_bytes_roundtrip(b, p + 1);
            assert(seq![b[p]] + b.subrange(p + 1, p + 9) =~= b.subrange(p, q));
        } else {
            assert(seq![b[p]] =~= b.subrange(p, q));
        }
        assert(a == b.subrange(p, q));
        lemma_le_u64_bytes_roundtrip(b, q);
        lemma_le_u64_bytes_roundtrip(b, q + 8);
        assert(b.subrange(p, q) + b.subrange(q, q + 8) + b.subrange(q + 8, q + 16) + b.subrange(
            q + 16,
            r,
        ) + b.subrange(r, t) =~= b.subrange(p, t));
    }
}

/// The bytes read as layers are the bytes of those layers, and they are
/// well-formed.
proof fn lemma_parse_layers_bytes(b: Seq<u8>, p: int, count: nat)
    requires
        0 <= p <= b.len(),
    ensures
        parse_layers(b, p, count) matches Ok((ls, q)) ==> {
            &&& p <= q <= b.len()
            &&& ls.len() == count
            &&& spec_layers_wf(ls)
            &&& layers_bytes(ls) == b.subrange(p, q)
        },
    decreases count,
{
    if count == 0 {
        assert(b.subrange(p, p) =~= Seq::<u8>::empty());
    } else {
        let c1 = (count - 1) as nat;
        lemma_parse_layers_bytes(b, p, c1);
        if let Ok((ls0, q0)) = parse_layers(b, p, c1) {
            lemma_parse_layer_bytes(b, q0);
            if let Ok((l, r)) = parse_layer(b, q0) {
                let ls = ls0.push(l);
                assert(ls.drop_last() =~= ls0);
                assert(b.subrange(p, q0) + b.subrange(q0, r) =~= b.subrange(p, r));
                assert forall|i: int| 0 <= i < ls.len() implies (#[trigger] ls[i]).wf() by {
                    if i < ls0.len() {
                        assert(ls[i] == ls0[i]);
                    }
                }
            }
        }
    }
}

/// What is loaded is exactly what saving it writes: when reading a network
/// from `b` takes `k` bytes, its layers are well-formed and the first `k`
/// bytes of `b` are the bytes of that network.
pub proof fn law_save_after_load(b: Seq<u8>)
    ensures
        parse_network(b) matches Ok((ls, k)) ==> {
            &&& 16 <= k <= b.len()
            &&& spec_layers_wf(ls)
            &&& network_bytes(ls) == b.subrange(0, k)
        },
{
    if let Ok((ls, k)) = parse_network(b) {
        let count = le_u64_at(b, 8);
        lemma_parse_layers_bytes(b, 16, count as nat);
        lemma_le_u64_bytes_roundtrip(b, 8);
        assert(b.subrange(0, 8) + b.subrange(8, 16) + b.subrange(16, k) =~= b.subrange(0, k));
    }
}

/// The tag of each activation is fixed: Sigmoid is written as the byte 0,
/// LReLU as 1 followed by the little-endian bytes of its leak factor, Linear
/// as 2 and SoftMax as 3.
pub proof fn law_activation_encoding(alpha: u64)
    ensures
        activation_bytes(Activation::Sigmoid) == seq![0u8],
        activation_bytes(Activation::LReLU(alpha)) == seq![1u8] + u64_le_bytes(alpha),
        activation_bytes(Activation::Linear) == seq![2u8],
        activation_bytes(Activation::SoftMax) == seq![3u8],
{
}

/// Reading an activation goes by its tag byte: 0 is Sigmoid, 1 is LReLU with
/// the leak factor in the next eight bytes, 2 is Linear, 3 is SoftMax, and
/// any other tag is refused naming it.
pub proof fn law_activation_tags(b: Seq<u8>, p: int)
    requires
        0 <= p < b.len(),
    ensures
        b[p] == 0 ==> parse_activation(b, p) == Ok::<(Activation, int), FormatError>(
            (Activation::Sigmoid, p + 1),
        ),
        b[p] == 1 && p + 9 <= b.len() ==> parse_activation(b, p) == Ok::<
            (Activation, int),
            FormatError,
        >((Activation::LReLU(le_u64_at(b, p + 1)), p + 9)),
        b[p] == 1 && p + 9 > b.len() ==> parse_activation(b, p) == Err::<
            (Activation, int),
            FormatError,
        >(FormatError::UnexpectedEnd),
        b[p] == 2 ==> parse_activation(b, p) == Ok::<(Activation, int), FormatError>(
            (Activation::Linear, p + 1),
        ),
        b[p] == 3 ==> parse_activation(b, p) == Ok::<(Activation, int), FormatError>(
            (Activation::SoftMax, p + 1),
        ),
        b[p] > 3 ==> parse_activation(b, p) == Err::<(Activation, int), FormatError>(
            FormatError::BadActivationTag(b[p]),
        ),
{
}

/// A layer is written as its activation, then its neuron count, then its
/// input count (eight little-endian bytes each), then its weights row by row,
/// then its biases, eight bytes per value.
pub proof fn law_layer_bytes_layout(l: LayerView)
    ensures
        ({
            let a = activation_bytes(l.activation).len() as int;
            let m = 8 * l.matrix.len() as int;
            let lb = layer_bytes(l);
            &&& lb.len() == a + 16 + m + 8 * l.biases.len()
            &&& lb.subrange(0, a) == activation_bytes(l.activation)
            &&& lb.subrange(a, a + 8) == u64_le_bytes(l.neurons as u64)
            &&& lb.subrange(a + 8, a + 16) == u64_le_bytes(l.inputs as u64)
            &&& lb.subrange(a + 16, a + 16 + m) == words_le_bytes(l.matrix)
            &&& lb.subrange(a + 16 + m, lb.len() as int) == words_le_bytes(l.biases)
        }),
{
    lemma_words_le_bytes_len(l.matrix);
    lemma_words_le_bytes_len(l.biases);
    let a = activation_bytes(l.activation);
    let n = u64_le_bytes(l.neurons as u64);
    let i = u64_le_bytes(l.inputs as u64);
    let m = words_le_bytes(l.matrix);
    let bs = words_le_bytes(l.biases);
    let lb = layer_bytes(l);
    let al = a.len() as int;
    let ml = m.len() as int;
    assert(lb.subrange(0, al) =~= a);
    assert(lb.subrange(al, al + 8) =~= n);
    assert(lb.subrange(al + 8, al + 16) =~= i);
    assert(lb.subrange(al + 16, al + 16 + ml) =~= m);
    assert(lb.subrange(al + 16 + ml, lb.len() as int) =~= bs);
}

/// A saved network opens with the eight bytes `"\0MLP_RS\n"`, then the
/// number of layers as eight little-endian bytes, then its layers one after
/// the other.
pub proof fn law_network_bytes_layout(ls: Seq<LayerView>)
    ensures
        network_bytes(ls).len() == 16 + layers_bytes(ls).len(),
        network_bytes(ls).subrange(0, 8) == seq![0u8, 77u8, 76u8, 80u8, 95u8, 82u8, 83u8, 10u8],
        network_bytes(ls).subrange(8, 16) == u64_le_bytes(ls.len() as u64),
        network_bytes(ls).subrange(16, network_bytes(ls).len() as int) == layers_bytes(ls),
        ls.len() > 0 ==> layers_bytes(ls) == layers_bytes(ls.drop_last()) + layer_bytes(ls.last()),
{
    let nb = network_bytes(ls);
    assert(nb.subrange(0, 8) =~= seq![0u8, 77u8, 76u8, 80u8, 95u8, 82u8, 83u8, 10u8]);
    assert(nb.subrange(8, 16) =~= u64_le_bytes(ls.len() as u64));
    assert(nb.subrange(16, nb.len() as int) =~= layers_bytes(ls));
}

/// Reading a network fails on a short header, and on a wrong magic exactly
/// when the first eight bytes are not `"\0MLP_RS\n"`.
pub proof fn law_parse_network_header(b: Seq<u8>)
    ensures
        b.len() < 8 ==> parse_network(b) == Err::<(Seq<LayerView>, int), FormatError>(
            FormatError::UnexpectedEnd,
        ),
        b.len() >= 8 ==> ((parse_network(b) == Err::<(Seq<LayerView>, int), FormatError>(
            FormatError::BadMagic,
        )) <==> b.subrange(0, 8) != seq![0u8, 77u8, 76u8, 80u8, 95u8, 82u8, 83u8, 10u8]),
        8 <= b.len() < 16 && b.subrange(0, 8) == seq![0u8, 77u8, 76u8, 80u8, 95u8, 82u8, 83u8, 10u8]
            ==> parse_network(b) == Err::<(Seq<LayerView>, int), FormatError>(
            FormatError::UnexpectedEnd,
        ),
        b.len() >= 16 && b.subrange(0, 8) == seq![0u8, 77u8, 76u8, 80u8, 95u8, 82u8, 83u8, 10u8]
            ==> parse_network(b) == parse_layers(b, 16, le_u64_at(b, 8) as nat),
{
    assert(spec_magic() =~= seq![0u8, 77u8, 76u8, 80u8, 95u8, 82u8, 83u8, 10u8]);
    if b.len() >= 16 && b.subrange(0, 8) == spec_magic() {
        lemma_parse_layers_no_bad_magic(b, 16, le_u64_at(b, 8) as nat);
    }
}

/// Reading layers never reports a wrong magic.
proof fn lemma_parse_layers_no_bad_magic(b: Seq<u8>, p: int, count: nat)
    ensures
        parse_layers(b, p, count) != Err::<(Seq<LayerView>, int), FormatError>(
            FormatError::BadMagic,
        ),
    decreases count,
{
    if count > 0 {
        lemma_parse_layers_no_bad_magic(b, p, (count - 1) as nat);
    }
}

/// Reading a layer: after its activation come its neuron count `n` and
/// input count `i`; a layer whose counts or whose `n * i` weights cannot be
/// counted in a `usize` is refused as too large; otherwise the layer is read
/// exactly when its `n * i` weights and `n` biases are all there (eight
/// bytes each, weights first), and a missing byte anywhere is an unexpected
/// end.
pub proof fn law_parse_layer_fields(b: Seq<u8>, p: int)
    requires
        0 <= p,
    ensures
        parse_activation(b, p) matches Err(e) ==> parse_layer(b, p) == Err::<(LayerView, int), FormatError>(e),
        parse_activation(b, p) matches Ok((a, q)) ==> {
            &&& q + 16 > b.len() ==> parse_layer(b, p) == Err::<(LayerView, int), FormatError>(
                FormatError::UnexpectedEnd,
            )
            &&& q + 16 <= b.len() ==> {
                let n = le_u64_at(b, q) as int;
                let i = le_u64_at(b, q + 8) as int;
                let fits = n <= usize::MAX && i <= usize::MAX && n * i <= usize::MAX;
                &&& !fits ==> parse_layer(b, p) == Err::<(LayerView, int), FormatError>(
                    FormatError::SizeOverflow,
                )
                &&& fits && q + 16 + 8 * (n * i) + 8 * n > b.len() ==> parse_layer(b, p) == Err::<
                    (LayerView, int),
                    FormatError,
                >(FormatError::UnexpectedEnd)
                &&& fits && q + 16 + 8 * (n * i) + 8 * n <= b.len() ==> {
                    &&& parse_layer(b, p) is Ok
                    &&& parse_layer(b, p).unwrap().1 == q + 16 + 8 * (n * i) + 8 * n
                    &&& parse_layer(b, p).unwrap().0.activation == a
                    &&& parse_layer(b, p).unwrap().0.neurons == n
                    &&& parse_layer(b, p).unwrap().0.inputs == i
                    &&& parse_layer(b, p).unwrap().0.matrix.len() == n * i
                    &&& parse_layer(b, p).unwrap().0.biases.len() == n
                    &&& forall|k: int|
                        0 <= k < n * i ==> #[trigger] parse_layer(b, p).unwrap().0.matrix[k]
                            == le_u64_at(b, q + 16 + 8 * k)
                    &&& forall|k: int|
                        0 <= k < n ==> #[trigger] parse_layer(b, p).unwrap().0.biases[k] == le_u64_at(
                            b,
                            q + 16 + 8 * (n * i) + 8 * k,
                        )
                }
            }
        },
{
    if let Ok((a, q)) = parse_activation(b, p) {
        if q + 16 <= b.len() {
            let n = le_u64_at(b, q) as int;
            let i = le_u64_at(b, q + 8) as int;
            assert(n * i >= 0) by (nonlinear_arith)
                requires
                    n >= 0,
                    i >= 0,
            ;
            if n <= usize::MAX && i <= usize::MAX && n * i <= usize::MAX {
                let m = q + 16 + 8 * (n * i);
                if q + 16 + 8 * (n * i) + 8 * n <= b.len() {
                    assert(parse_words(b, q + 16, (n * i) as nat) == Ok::<(Seq<u64>, int), FormatError>(
                        (Seq::new((n * i) as nat, |k: int| le_u64_at(b, q + 16 + 8 * k)), m),
                    ));
                    assert(parse_words(b, m, n as nat) == Ok::<(Seq<u64>, int), FormatError>(
                        (Seq::new(n as nat, |k: int| le_u64_at(b, m + 8 * k)), m + 8 * n),
                    ));
                }
            }
        }
    }
}

} // verus!
