use vstd::prelude::*;

verus! {

/// The ASCII decimal digits of `n`, most significant first, without
/// leading zeros (`"0"` for zero).
pub open spec fn decimal(n: nat) -> Seq<u8>
    decreases n,
{
    if n < 10 {
        seq![(48 + n) as u8]
    } else {
        decimal(n / 10).push((48 + n % 10) as u8)
    }
}

pub open spec fn is_digit(b: u8) -> bool {
    48 <= b <= 57
}

/// The number written by a run of ASCII digits.
pub open spec fn digits_value(s: Seq<u8>) -> nat
    decreases s.len(),
{
    if s.len() == 0 {
        0
    } else {
        digits_value(s.drop_last()) * 10 + (s.last() - 48) as nat
    }
}

/// Where the run of digits starting at `p` ends.
pub open spec fn digits_end(s: Seq<u8>, p: int) -> int
    decreases s.len() - p,
{
    if 0 <= p < s.len() && is_digit(s[p]) {
        digits_end(s, p + 1)
    } else {
        p
    }
}

/// The header of a binary PPM image: magic number, width and height, and
/// the maximum channel value 255, each line ended by a newline.
pub open spec fn ppm_header(width: nat, height: nat) -> Seq<u8> {
    seq![80u8, 54u8, 10u8] + decimal(width) + seq![32u8] + decimal(height) + seq![10u8, 50u8, 53u8, 53u8, 10u8]
}

/// A binary PPM image: the header, then the pixel bytes row by row.
pub open spec fn ppm_bytes(width: nat, height: nat, data: Seq<u8>) -> Seq<u8> {
    ppm_header(width, height) + data
}

/// Reads back what `ppm_bytes` writes: the width, the height and three
/// bytes per pixel, or nothing when the bytes are not such an image or the
/// sizes do not fit a `usize`.
pub open spec fn ppm_parse(s: Seq<u8>) -> Option<(nat, nat, Seq<u8>)> {
    if !(s.len() >= 3 && s[0] == 80u8 && s[1] == 54u8 && s[2] == 10u8) {
        None
    } else {
        let e1 = digits_end(s, 3);
        if e1 == 3 || e1 >= s.len() || s[e1] != 32u8 {
            None
        } else {
            let e2 = digits_end(s, e1 + 1);
            if e2 == e1 + 1 || e2 >= s.len() || s[e2] != 10u8 {
                None
            } else {
                let w = digits_value(s.subrange(3, e1));
                let h = digits_value(s.subrange(e1 + 1, e2));
                let p = e2 + 1;
                if !(p + 4 <= s.len() && s[p] == 50u8 && s[p + 1] == 53u8 && s[p + 2] == 53u8 && s[p + 3] == 10u8) {
                    None
                } else if w > usize::MAX || h > usize::MAX || s.len() - (p + 4) != 3 * w * h {
                    None
                } else {
                    Some((w, h, s.subrange(p + 4, s.len() as int)))
                }
            }
        }
    }
}

proof fn lemma_decimal_digits(n: nat)
    ensures
        decimal(n).len() >= 1,
        forall|i: int| 0 <= i < decimal(n).len() ==> is_digit(#[trigger] decimal(n)[i]),
        digits_value(decimal(n)) == n,
    decreases n,
{
    if n >= 10 {
        lemma_decimal_digits(n / 10);
        let d = decimal(n / 10);
        assert(decimal(n).drop_last() == d);
        assert(decimal(n).last() == (48 + n % 10) as u8);
        assert(((48 + n % 10) as u8 - 48) as nat == n % 10);
        assert(digits_value(decimal(n)) == digits_value(d) * 10 + n % 10);
        assert(n == (n / 10) * 10 + n % 10);
    } else {
        assert(decimal(n).drop_last() =~= Seq::<u8>::empty());
        assert(digits_value(Seq::<u8>::empty()) == 0);
        assert(decimal(n).last() == (48 + n) as u8);
        assert(digits_value(decimal(n)) == digits_value(decimal(n).drop_last()) * 10 + (decimal(n).last() - 48) as nat);
    }
}

proof fn lemma_digits_end(s: Seq<u8>, p: int, q: int)
    requires
        0 <= p <= q <= s.len(),
        forall|i: int| p <= i < q ==> is_digit(#[trigger] s[i]),
        q == s.len() || !is_digit(s[q]),
    ensures
        digits_end(s, p) == q,
    decreases q - p,
{
    if p < q {
        lemma_digits_end(s, p + 1, q);
    }
}

/// Reading back a written image gives its width, height and pixel bytes.
pub proof fn lemma_ppm_round_trip(width: nat, height: nat, data: Seq<u8>)
    requires
        width <= usize::MAX,
        height <= usize::MAX,
        data.len() == 3 * width * height,
    ensures
        ppm_parse(ppm_bytes(width, height, data)) == Some((width, height, data)),
{
    let s = ppm_bytes(width, height, data);
    let dw = decimal(width);
    let dh = decimal(height);
    lemma_decimal_digits(width);
    lemma_decimal_digits(height);
    let e1: int = 3 + dw.len() as int;
    let e2: int = e1 + 1 + dh.len() as int;
    assert(s[0] == 80u8 && s[1] == 54u8 && s[2] == 10u8);
    assert forall|i: int| 3 <= i < e1 implies is_digit(#[trigger] s[i]) by {
        assert(s[i] == dw[i - 3]);
    }
    assert(s[e1] == 32u8);
    lemma_digits_end(s, 3, e1);
    assert forall|i: int| e1 + 1 <= i < e2 implies is_digit(#[trigger] s[i]) by {
        assert(s[i] == dh[i - e1 - 1]);
    }
    assert(s[e2] == 10u8);
    lemma_digits_end(s, e1 + 1, e2);
    assert(s.subrange(3, e1) =~= dw);
    assert(s.subrange(e1 + 1, e2) =~= dh);
    let p = e2 + 1;
    assert(s[p] == 50u8 && s[p + 1] == 53u8 && s[p + 2] == 53u8 && s[p + 3] == 10u8);
    assert(s.subrange(p + 4, s.len() as int) =~= data);
}

/// Appends the decimal digits of `n`.
fn push_decimal(out: &mut Vec<u8>, n: usize)
    ensures
        final(out)@ == old(out)@ + decimal(n as nat),
    decreases n,
{
    if n < 10 {
        out.push(48 + n as u8);
        assert(decimal(n as nat) == seq![(48 + n) as u8]);
        assert(final(out)@ =~= old(out)@ + decimal(n as nat));
    } else {
        push_decimal(out, n / 10);
        out.push(48 + (n % 10) as u8);
        assert(final(out)@ =~= old(out)@ + decimal(n as nat));
    }
}

/// Writes a binary PPM image of `width` by `height` pixels whose channel
/// bytes are `data`.
pub fn encode_ppm(width: usize, height: usize, data: &Vec<u8>) -> (r: Vec<u8>)
    ensures
        r@ == ppm_bytes(width as nat, height as nat, data@),
{
    let mut out: Vec<u8> = Vec::new();
    out.push(80);
    out.push(54);
    out.push(10);
    push_decimal(&mut out, width);
    out.push(32);
    push_decimal(&mut out, height);
    out.push(10);
    out.push(50);
    out.push(53);
    out.push(53);
    out.push(10);
    let mut i: usize = 0;
    let ghost header = out@;
    assert(header =~= ppm_header(width as nat, height as nat));
    while i < data.len()
        invariant
            i <= data@.len(),
            out@ == header + data@.subrange(0, i as int),
        decreases data@.len() - i,
    {
        out.push(data[i]);
        i = i + 1;
        assert(out@ =~= header + data@.subrange(0, i as int));
    }
    assert(data@.subrange(0, data@.len() as int) =~= data@);
    out
}

/// Reads the run of digits starting at `p`: where it ends, and the number
/// it writes when that fits a `usize`.
fn read_number(s: &Vec<u8>, p: usize) -> (r: (usize, Option<usize>))
    requires
        p <= s@.len(),
    ensures
        r.0 == digits_end(s@, p as int),
        p <= r.0 <= s@.len(),
        r.1 is Some <==> digits_value(s@.subrange(p as int, r.0 as int)) <= usize::MAX,
        r.1 is Some ==> r.1->0 == digits_value(s@.subrange(p as int, r.0 as int)),
{
    let n = s.len();
    let mut q = p;
    let mut v: Option<usize> = Some(0);
    assert(s@.subrange(p as int, p as int) =~= Seq::<u8>::empty());
    while q < n && s[q] >= 48 && s[q] <= 57
        invariant
            n == s@.len(),
            p <= q <= n,
            digits_end(s@, p as int) == digits_end(s@, q as int),
            v is Some <==> digits_value(s@.subrange(p as int, q as int)) <= usize::MAX,
            v is Some ==> v->0 == digits_value(s@.subrange(p as int, q as int)),
        decreases n - q,
    {
        let d = (s[q] - 48) as usize;
        let ghost before = s@.subrange(p as int, q as int);
        let ghost after = s@.subrange(p as int, q + 1);
        assert(after.drop_last() =~= before);
        assert(digits_value(after) == digits_value(before) * 10 + d);
        v = match v {
            Some(x) => if x > (usize::MAX - d) / 10 {
                assert(x * 10 + d > usize::MAX) by (nonlinear_arith)
                    requires
                        x > (usize::MAX - d) / 10,
                        d <= 9,
                ;
                None
            } else {
                assert(x * 10 + d <= usize::MAX) by (nonlinear_arith)
                    requires
                        x <= (usize::MAX - d) / 10,
                        d <= 9,
                ;
                Some(x * 10 + d)
            },
            None => None,
        };
        q = q + 1;
    }
    (q, v)
}

/// Reads a binary PPM image as `encode_ppm` writes it: its width, height
/// and pixel bytes, or `None` when the bytes are not such an image.
pub fn decode_ppm(bytes: &Vec<u8>) -> (r: Option<(usize, usize, Vec<u8>)>)
    ensures
        match r {
            Some((w, h, data)) => ppm_parse(bytes@) == Some((w as nat, h as nat, data@)),
            None => ppm_parse(bytes@) is None,
        },
{
    let n = bytes.len();
    if !(n >= 3 && bytes[0] == 80 && bytes[1] == 54 && bytes[2] == 10) {
        return None;
    }
    let (e1, w) = read_number(bytes, 3);
    if e1 == 3 || e1 >= n || bytes[e1] != 32 {
        return None;
    }
    let (e2, h) = read_number(bytes, e1 + 1);
    if e2 == e1 + 1 || e2 >= n || bytes[e2] != 10 {
        return None;
    }
    let p = e2 + 1;
    if !(n - p >= 4 && bytes[p] == 50 && bytes[p + 1] == 53 && bytes[p + 2] == 53 && bytes[p + 3] == 10) {
        return None;
    }
    let (w, h) = match (w, h) {
        (Some(w), Some(h)) => (w, h),
        _ => {
            return None;
        },
    };
    let rest = n - (p + 4);
    let fits = match w.checked_mul(h) {
        Some(wh) => match wh.checked_mul(3) {
            Some(x) => {
                assert(x == rest ==> rest == 3 * w * h) by (nonlinear_arith)
                    requires
                        wh == w * h,
                        x == wh * 3,
                ;
                x == rest
            },
            None => false,
        },
        None => false,
    };
    if !fits {
        assert(rest != 3 * w * h) by (nonlinear_arith)
            requires
                fits == false,
                w * h > usize::MAX || (w * h) * 3 > usize::MAX || (w * h) * 3 != rest,
                rest <= usize::MAX,
        ;
        return None;
    }
    let mut data: Vec<u8> = Vec::new();
    let mut i = p + 4;
    while i < n
        invariant
            n == bytes@.len(),
            p + 4 <= i <= n,
            data@ == bytes@.subrange(p + 4, i as int),
        decreases n - i,
    {
        data.push(bytes[i]);
        i = i + 1;
        assert(data@ =~= bytes@.subrange(p + 4, i as int));
    }
    Some((w, h, data))
}

/// Where pixel `idx` of a row-major image whose first row is the top one
/// lies: its column, and its row counted from the bottom.
pub fn pixel_position(idx: usize, width: usize, height: usize) -> (r: (usize, usize))
    requires
        idx < width * height,
    ensures
        r.0 == idx % width,
        r.1 == height - 1 - idx / width,
        r.0 < width,
        r.1 < height,
{
    assert(width > 0) by (nonlinear_arith)
        requires
            idx < width * height,
    ;
    assert(idx / width < height) by (nonlinear_arith)
        requires
            idx < width * height,
            width > 0,
    ;
    (idx % width, height - 1 - idx / width)
}

} // verus!
