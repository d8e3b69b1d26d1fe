use vstd::prelude::*;

verus! {

/// The colour of one pixel of one layer.
#[derive(Clone, Copy, Debug, PartialEq, Eq, Structural)]
pub enum Pixel {
    Transparent,
    Black,
    White,
}

/// The colour a digit of the image stands for: 0 black, 1 white, 2 transparent.
pub open spec fn pixel_of(d: u32) -> Option<Pixel> {
    if d == 0 {
        Some(Pixel::Black)
    } else if d == 1 {
        Some(Pixel::White)
    } else if d == 2 {
        Some(Pixel::Transparent)
    } else {
        None
    }
}

/// What shows at `pos` through layers stacked front first: the first pixel that
/// is not transparent, else transparent.
pub open spec fn visible(layers: Seq<Vec<u32>>, pos: int) -> Pixel
    decreases layers.len(),
{
    if layers.len() == 0 {
        Pixel::Transparent
    } else {
        match pixel_of(layers[0]@[pos]) {
            Some(Pixel::Transparent) => visible(layers.drop_first(), pos),
            Some(p) => p,
            None => Pixel::Transparent,
        }
    }
}

/// Every layer has a pixel at `pos`, and it is a colour digit.
pub open spec fn layers_cover(layers: Seq<Vec<u32>>, pos: int) -> bool {
    forall|l: int|
        0 <= l < layers.len() ==> pos < (#[trigger] layers[l]).len() && layers[l]@[pos] <= 2
}

/// How often `x` occurs in `s`.
pub open spec fn occurrences(s: Seq<u32>, x: u32) -> nat
    decreases s.len(),
{
    if s.len() == 0 {
        0
    } else {
        occurrences(s.drop_last(), x) + if s.last() == x {
            1nat
        } else {
            0nat
        }
    }
}

impl Pixel {
    /// The colour a digit stands for, if it is one.
    pub fn from_digit(d: u32) -> (r: Option<Pixel>)
        ensures
            r == pixel_of(d),
    {
        match d {
            0 => Some(Pixel::Black),
            1 => Some(Pixel::White),
            2 => Some(Pixel::Transparent),
            _ => None,
        }
    }

    /// How the pixel is drawn: white as `1`, anything else as a blank.
    pub fn glyph(&self) -> (r: char)
        ensures
            r == (if *self == Pixel::White {
                '1'
            } else {
                ' '
            }),
    {
        match self {
            Pixel::White => '1',
            _ => ' ',
        }
    }
}

/// The colour that shows at `pixel_position` through `layers`, front first.
pub fn determine_pixel(pixel_position: usize, layers: &Vec<Vec<u32>>) -> (r: Pixel)
    requires
        layers_cover(layers@, pixel_position as int),
    ensures
        r == visible(layers@, pixel_position as int),
{
    let mut i: usize = 0;
    assert(layers@.subrange(0, layers.len() as int) =~= layers@);
    while i < layers.len()
        invariant
            i <= layers.len(),
            layers_cover(layers@, pixel_position as int),
            visible(layers@, pixel_position as int) == visible(
                layers@.subrange(i as int, layers.len() as int),
                pixel_position as int,
            ),
        decreases layers.len() - i,
    {
        let ghost rest = layers@.subrange(i as int, layers.len() as int);
        assert(rest[0] == layers@[i as int]);
        assert(rest.drop_first() =~= layers@.subrange(i + 1, layers.len() as int));
        let d = layers[i][pixel_position];
        match Pixel::from_digit(d) {
            Some(Pixel::Transparent) => {},
            Some(p) => {
                return p;
            },
            None => {
                return Pixel::Transparent;
            },
        }
        i = i + 1;
    }
    Pixel::Transparent
}

/// Cuts `digits` into layers of `size` digits each; the last may be shorter.
pub fn split_layers(digits: &Vec<u32>, size: usize) -> (r: Vec<Vec<u32>>)
    requires
        size > 0,
    ensures
        r.len() == (digits.len() + size - 1) / size as int,
        forall|l: int|
            0 <= l < r.len() ==> (#[trigger] r@[l])@ == digits@.subrange(
                l * size,
                if (l + 1) * size <= digits.len() {
                    (l + 1) * size
                } else {
                    digits.len() as int
                },
            ),
{
    let mut layers: Vec<Vec<u32>> = Vec::new();
    let mut start: usize = 0;
    assert(0 * size as int == 0);
    assert((size - 1) / size as int == 0) by (nonlinear_arith)
        requires
            size > 0,
    ;
    while start < digits.len()
        invariant
            size > 0,
            start <= digits.len(),
            start as int == layers.len() as int * size as int || start == digits.len(),
            start < digits.len() ==> start as int == layers.len() as int * size as int,
            layers.len() == (start + size - 1) / size as int,
            forall|l: int|
                0 <= l < layers.len() ==> (#[trigger] layers@[l])@ == digits@.subrange(
                    l * size,
                    if (l + 1) * size <= digits.len() {
                        (l + 1) * size
                    } else {
                        digits.len() as int
                    },
                ),
        decreases digits.len() - start,
    {
        let end = if digits.len() - start >= size {
            start + size
        } else {
            digits.len()
        };
        let mut layer: Vec<u32> = Vec::new();
        let mut j = start;
        while j < end
            invariant
                start <= j <= end <= digits.len(),
                layer@ == digits@.subrange(start as int, j as int),
            decreases end - j,
        {
            layer.push(digits[j]);
            assert(layer@ =~= digits@.subrange(start as int, j + 1));
            j = j + 1;
        }
        let ghost k = layers.len() as int;
        layers.push(layer);
        proof {
            assert((k + 1) * size == k * size + size) by (nonlinear_arith);
            assert((start + size + size - 1) / size as int == (start + size - 1) / size as int + 1)
                by (nonlinear_arith)
                requires
                    start == k * size,
                    size > 0,
                    (start + size - 1) / size as int == k,
            ;
            if end == digits.len() && end < start + size {
                assert((end + size - 1) / size as int == k + 1) by (nonlinear_arith)
                    requires
                        start == k * size,
                        size > 0,
                        start < end < start + size,
                ;
            }
        }
        start = end;
    }
    layers
}

/// How often `x` occurs in `layer`.
fn count_digit(layer: &Vec<u32>, x: u32) -> (r: usize)
    ensures
        r == occurrences(layer@, x),
{
    let mut n: usize = 0;
    let mut i: usize = 0;
    while i < layer.len()
        invariant
            i <= layer.len(),
            n == occurrences(layer@.take(i as int), x),
            n <= i,
        decreases layer.len() - i,
    {
        assert(layer@.take(i + 1).drop_last() =~= layer@.take(i as int));
        if layer[i] == x {
            n = n + 1;
        }
        i = i + 1;
    }
    assert(layer@.take(layer.len() as int) =~= layer@);
    n
}

/// The index of the first layer with the fewest zeros.
pub open spec fn fewest_zeros(layers: Seq<Vec<u32>>, best: int) -> bool {
    &&& 0 <= best < layers.len()
    &&& forall|l: int|
        0 <= l < layers.len() ==> occurrences(layers[best]@, 0) <= occurrences(
            (#[trigger] layers[l])@,
            0,
        )
    &&& forall|l: int|
        0 <= l < best ==> occurrences(layers[best]@, 0) < occurrences((#[trigger] layers[l])@, 0)
}

/// On the first layer with the fewest zeros, the number of ones times the number
/// of twos; `None` when there is no layer.
pub fn layer_checksum(layers: &Vec<Vec<u32>>) -> (r: Option<u128>)
    ensures
        layers.len() == 0 <==> r is None,
        r is Some ==> exists|best: int|
            fewest_zeros(layers@, best) && r->Some_0 == occurrences(layers@[best]@, 1)
                * occurrences(layers@[best]@, 2),
{
    if layers.len() == 0 {
        return None;
    }
    let mut best: usize = 0;
    let mut best_zeros = count_digit(&layers[0], 0);
    let mut i: usize = 1;
    while i < layers.len()
        invariant
            1 <= i <= layers.len(),
            best < i,
            best_zeros == occurrences(layers@[best as int]@, 0),
            forall|l: int|
                0 <= l < i ==> best_zeros <= occurrences((#[trigger] layers@[l])@, 0),
            forall|l: int|
                0 <= l < best ==> best_zeros < occurrences((#[trigger] layers@[l])@, 0),
        decreases layers.len() - i,
    {
        let z = count_digit(&layers[i], 0);
        if z < best_zeros {
            best = i;
            best_zeros = z;
        }
        i = i + 1;
    }
    let ones = count_digit(&layers[best], 1);
    let twos = count_digit(&layers[best], 2);
    assert(ones as u128 * twos as u128 <= u128::MAX) by (nonlinear_arith)
        requires
            ones <= usize::MAX,
            twos <= usize::MAX,
            usize::MAX <= u64::MAX,
    ;
    let r = ones as u128 * twos as u128;
    assert(fewest_zeros(layers@, best as int));
    Some(r)
}

/// The picture the layers make: for each position, the colour that shows.
pub fn render(layers: &Vec<Vec<u32>>, size: usize) -> (r: Vec<Pixel>)
    requires
        forall|pos: int| 0 <= pos < size ==> layers_cover(layers@, pos),
    ensures
        r.len() == size,
        forall|pos: int| 0 <= pos < size ==> #[trigger] r@[pos] == visible(layers@, pos),
{
    let mut out: Vec<Pixel> = Vec::new();
    for pos in 0..size
        invariant
            forall|p: int| 0 <= p < size ==> layers_cover(layers@, p),
            out.len() == pos,
            forall|p: int| 0 <= p < pos ==> #[trigger] out@[p] == visible(layers@, p),
    {
        out.push(determine_pixel(pos, layers));
    }
    out
}

/// The decimal digits among `bytes`, in order, as numbers.
pub fn digits_from_bytes(bytes: &Vec<u8>) -> (r: Vec<u32>)
    ensures
        r@ == bytes@.filter(|b: u8| 48 <= b <= 57).map_values(|b: u8| (b - 48) as u32),
{
    let mut out: Vec<u32> = Vec::new();
    for i in 0..bytes.len()
        invariant
            out@ == bytes@.take(i as int).filter(|b: u8| 48 <= b <= 57).map_values(
                |b: u8| (b - 48) as u32,
            ),
    {
        let b = bytes[i];
        proof {
            bytes@.take(i as int).lemma_filter_push(b, |b: u8| 48 <= b <= 57);
            assert(bytes@.take(i + 1) =~= bytes@.take(i as int).push(b));
        }
        if 48 <= b && b <= 57 {
            out.push((b - 48) as u32);
            assert(out@ =~= bytes@.take(i + 1).filter(|b: u8| 48 <= b <= 57).map_values(
                |b: u8| (b - 48) as u32,
            ));
        }
    }
    assert(bytes@.take(bytes.len() as int) =~= bytes@);
    out
}

} // verus!
