use vstd::prelude::*;

verus! {

/// The character of decimal digit `d`.
pub open spec fn digit_char(d: nat) -> char
    recommends
        d < 10,
{
    if d == 0 { '0' } else if d == 1 { '1' } else if d == 2 { '2' } else if d == 3 { '3' }
    else if d == 4 { '4' } else if d == 5 { '5' } else if d == 6 { '6' } else if d == 7 { '7' }
    else if d == 8 { '8' } else { '9' }
}

/// The decimal form of `n`, without leading zeros (`"0"` for zero).
pub open spec fn decimal(n: nat) -> Seq<char>
    decreases n,
{
    if n < 10 {
        seq![digit_char(n)]
    } else {
        decimal(n / 10).push(digit_char(n % 10))
    }
}

fn push_digit(s: &mut String, d: u64)
    requires
        d < 10,
    ensures
        final(s)@ == old(s)@.push(digit_char(d as nat)),
{
    proof {
        reveal_strlit("0");
        reveal_strlit("1");
        reveal_strlit("2");
        reveal_strlit("3");
        reveal_strlit("4");
        reveal_strlit("5");
        reveal_strlit("6");
        reveal_strlit("7");
        reveal_strlit("8");
        reveal_strlit("9");
    }
    if d == 0 { s.append("0"); } else if d == 1 { s.append("1"); } else if d == 2 { s.append("2"); }
    else if d == 3 { s.append("3"); } else if d == 4 { s.append("4"); } else if d == 5 { s.append("5"); }
    else if d == 6 { s.append("6"); } else if d == 7 { s.append("7"); } else if d == 8 { s.append("8"); }
    else { s.append("9"); }
    assert(s@ =~= old(s)@.push(digit_char(d as nat)));
}

/// Appends the decimal form of `n` to `s`.
pub fn push_decimal(s: &mut String, n: u64)
    ensures
        final(s)@ == old(s)@ + decimal(n as nat),
    decreases n,
{
    if n < 10 {
        push_digit(s, n);
        assert(decimal(n as nat) =~= seq![digit_char(n as nat)]);
        assert(s@ =~= old(s)@ + decimal(n as nat));
    } else {
        push_decimal(s, n / 10);
        push_digit(s, n % 10);
        assert(s@ =~= old(s)@ + decimal(n as nat));
    }
}

/// The message of an `UnknownPixel` error for subtype `t`: it names the subtype.
pub open spec fn unknown_pixel_text(t: u8) -> Seq<char> {
    "Unknown pixel type ("@ + decimal(t as nat) + ")."@
}

/// The message of an `UnknownPixel` error for subtype `t`.
pub fn unknown_pixel_message(t: u8) -> (r: String)
    ensures
        r@ == unknown_pixel_text(t),
{
    let mut s = String::from_str("Unknown pixel type (");
    push_decimal(&mut s, t as u64);
    s.append(").");
    s
}

/// `k` underscores.
pub open spec fn underscores(k: nat) -> Seq<char> {
    Seq::new(k, |i: int| '_')
}

/// The decimal form of `n`, padded on the left with zeros to `width` characters.
pub open spec fn zero_padded(n: nat, width: nat) -> Seq<char> {
    let d = decimal(n);
    if d.len() < width {
        Seq::new((width - d.len()) as nat, |i: int| '0') + d
    } else {
        d
    }
}

fn push_underscores(s: &mut String, k: usize)
    ensures
        final(s)@ == old(s)@ + underscores(k as nat),
{
    let mut i: usize = 0;
    while i < k
        invariant
            i <= k,
            s@ == old(s)@ + underscores(i as nat),
        decreases k - i,
    {
        proof {
            reveal_strlit("_");
        }
        s.append("_");
        i = i + 1;
        assert(s@ =~= old(s)@ + underscores(i as nat));
    }
}

/// Number of decimal digits of `n` (one for zero).
pub fn decimal_len(n: u64) -> (r: u64)
    ensures
        r == decimal(n as nat).len(),
        1 <= r <= n as nat + 1,
    decreases n,
{
    if n < 10 {
        1
    } else {
        decimal_len(n / 10) + 1
    }
}

/// How many digits the sprite indices of a file with `shape_count` sprites
/// are padded to: the digits of `shape_count` itself.
pub fn index_width(shape_count: u16) -> (r: usize)
    ensures
        r == decimal(shape_count as nat).len(),
{
    decimal_len(shape_count as u64) as usize
}

/// The name of the `k`-th texture extracted from a file with stem `stem`:
/// `k` underscores tell the textures of one file apart.
pub fn tex_file_name(stem: &str, k: usize) -> (r: String)
    ensures
        r@ == stem@ + underscores(k as nat) + ".png"@,
{
    let mut s = String::from_str(stem);
    push_underscores(&mut s, k);
    s.append(".png");
    s
}

/// The name of the `k`-th sheet image that a sprite file with stem `stem` needs.
pub fn sheet_file_name(stem: &str, k: usize) -> (r: String)
    ensures
        r@ == stem@ + "_tex"@ + underscores(k as nat) + ".png"@,
{
    let mut s = String::from_str(stem);
    s.append("_tex");
    push_underscores(&mut s, k);
    s.append(".png");
    s
}

/// The name of the sprite with index `index` of a file with stem `stem`
/// and `shape_count` sprites: the index is padded with zeros to the width
/// of `shape_count`.
pub fn sprite_file_name(stem: &str, index: u16, shape_count: u16) -> (r: String)
    ensures
        r@ == stem@ + "_sprite_"@ + zero_padded(index as nat, decimal(shape_count as nat).len())
            + ".png"@,
{
    let width = index_width(shape_count);
    let len = decimal_len(index as u64) as usize;
    let mut s = String::from_str(stem);
    s.append("_sprite_");
    let ghost head = s@;
    let mut i: usize = len;
    while i < width
        invariant
            len <= i,
            i <= width || len > width,
            len >= width ==> i == len,
            s@ == head + Seq::new((i - len) as nat, |q: int| '0'),
        decreases width - i,
    {
        proof {
            reveal_strlit("0");
        }
        s.append("0");
        i = i + 1;
        assert(s@ =~= head + Seq::new((i - len) as nat, |q: int| '0'));
    }
    push_decimal(&mut s, index as u64);
    s.append(".png");
    proof {
        let d = decimal(index as nat);
        if len < width {
            assert(s@ =~= head + zero_padded(index as nat, width as nat) + ".png"@);
        } else {
            assert(Seq::new((i - len) as nat, |q: int| '0') =~= Seq::<char>::empty());
            assert(s@ =~= head + zero_padded(index as nat, width as nat) + ".png"@);
        }
    }
    s
}

} // verus!
