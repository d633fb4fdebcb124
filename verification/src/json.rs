use vstd::prelude::*;

verus! {

broadcast use vstd::seq::axiom_seq_index_decreases;

/// Bytes of an ASCII-only character sequence, one byte per character.
pub open spec fn ascii_bytes(s: Seq<char>) -> Seq<u8> {
    s.map_values(|c: char| c as u8)
}

/// Appends the bytes of an ASCII string literal to `out`.
pub fn push_ascii(out: &mut Vec<u8>, s: &str)
    requires
        vstd::utf8::is_ascii_chars(s@),
    ensures
        final(out)@ == old(out)@ + ascii_bytes(s@),
{
    let b = s.as_bytes();
    proof {
        vstd::utf8::is_ascii_chars_encode_utf8(s@);
        assert(b@ =~= ascii_bytes(s@));
    }
    let mut i: usize = 0;
    while i < b.len()
        invariant
            i <= b@.len(),
            out@ == old(out)@ + b@.subrange(0, i as int),
        decreases b@.len() - i,
    {
        out.push(b[i]);
        i = i + 1;
        proof {
            assert(out@ =~= old(out)@ + b@.subrange(0, i as int));
        }
    }
    proof {
        assert(b@.subrange(0, b@.len() as int) =~= b@);
    }
}

/// ASCII digit byte for a value below ten.
pub open spec fn digit(n: int) -> u8 {
    ('0' as u8 + n) as u8
}

/// Decimal digits of `n`, most significant first, no leading zeros.
pub open spec fn dec_bytes(n: int) -> Seq<u8>
    decreases n,
{
    if n < 10 {
        seq![digit(n)]
    } else {
        dec_bytes(n / 10).push(digit(n % 10))
    }
}

/// Appends the decimal digits of `n` to `out`.
pub fn push_u64(out: &mut Vec<u8>, n: u64)
    ensures
        final(out)@ == old(out)@ + dec_bytes(n as int),
    decreases n,
{
    if n < 10 {
        out.push('0' as u8 + (n as u8));
        proof {
            assert(out@ =~= old(out)@ + dec_bytes(n as int));
        }
    } else {
        push_u64(out, n / 10);
        out.push('0' as u8 + ((n % 10) as u8));
        proof {
            assert(out@ =~= old(out)@ + dec_bytes(n as int));
        }
    }
}

/// Decimal rendering of a signed value: a minus sign when negative,
/// then the digits of the magnitude.
pub open spec fn dec_bytes_signed(n: int) -> Seq<u8> {
    if n < 0 {
        seq!['-' as u8] + dec_bytes(-n)
    } else {
        dec_bytes(n)
    }
}

/// Appends the decimal rendering of a signed value to `out`.
pub fn push_i64(out: &mut Vec<u8>, n: i64)
    ensures
        final(out)@ == old(out)@ + dec_bytes_signed(n as int),
{
    if n < 0 {
        out.push('-' as u8);
        let m: u64 = ((-(n + 1)) as u64) + 1;
        push_u64(out, m);
        proof {
            assert(out@ =~= old(out)@ + dec_bytes_signed(n as int));
        }
    } else {
        push_u64(out, n as u64);
    }
}

/// Decimal digits of `n` zero-padded to exactly `w` digits.
pub open spec fn dec_pad(n: int, w: nat) -> Seq<u8>
    decreases w,
{
    if w == 0 {
        seq![]
    } else {
        dec_pad(n / 10, (w - 1) as nat).push(digit(n % 10))
    }
}

/// Appends `n` zero-padded to `w` digits; `n` must fit in `w` digits.
pub fn push_pad(out: &mut Vec<u8>, n: u64, w: u8)
    ensures
        final(out)@ == old(out)@ + dec_pad(n as int, w as nat),
    decreases w,
{
    if w == 0 {
        proof {
            assert(out@ =~= old(out)@ + dec_pad(n as int, 0));
        }
    } else {
        push_pad(out, n / 10, w - 1);
        out.push('0' as u8 + ((n % 10) as u8));
        proof {
            assert(out@ =~= old(out)@ + dec_pad(n as int, w as nat));
        }
    }
}

/// Lower-case hexadecimal digit byte for a value below sixteen.
pub open spec fn hex_digit(n: int) -> u8 {
    if n < 10 {
        ('0' as u8 + n) as u8
    } else {
        ('a' as u8 + (n - 10)) as u8
    }
}

/// Four lower-case hexadecimal digits of `n`, most significant first.
pub open spec fn hex4(n: int) -> Seq<u8> {
    seq![
        hex_digit(n / 4096 % 16),
        hex_digit(n / 256 % 16),
        hex_digit(n / 16 % 16),
        hex_digit(n % 16),
    ]
}

fn hex_digit_exec(n: u32) -> (r: u8)
    requires
        n < 16,
    ensures
        r == hex_digit(n as int),
{
    if n < 10 {
        '0' as u8 + (n as u8)
    } else {
        'a' as u8 + ((n - 10) as u8)
    }
}

/// Appends `\uXXXX` for the sixteen-bit value `n`.
fn push_u_escape(out: &mut Vec<u8>, n: u32)
    requires
        n < 0x10000,
    ensures
        final(out)@ == old(out)@ + seq!['\\' as u8, 'u' as u8] + hex4(n as int),
{
    out.push('\\' as u8);
    out.push('u' as u8);
    out.push(hex_digit_exec(n / 4096 % 16));
    out.push(hex_digit_exec(n / 256 % 16));
    out.push(hex_digit_exec(n / 16 % 16));
    out.push(hex_digit_exec(n % 16));
    proof {
        assert(out@ =~= old(out)@ + seq!['\\' as u8, 'u' as u8] + hex4(n as int));
    }
}

/// JSON escape of one character: printable ASCII stands for itself,
/// quote and backslash get a backslash, everything else becomes one
/// `\uXXXX` escape, or two for characters beyond the basic plane.
pub open spec fn esc_char(c: char) -> Seq<u8> {
    if c == '"' {
        seq!['\\' as u8, '"' as u8]
    } else if c == '\\' {
        seq!['\\' as u8, '\\' as u8]
    } else if 0x20 <= (c as int) && (c as int) < 0x7f {
        seq![c as u8]
    } else if (c as int) < 0x10000 {
        seq!['\\' as u8, 'u' as u8] + hex4(c as int)
    } else {
        seq!['\\' as u8, 'u' as u8] + hex4(0xd800 + (c as int - 0x10000) / 0x400)
            + seq!['\\' as u8, 'u' as u8] + hex4(0xdc00 + (c as int - 0x10000) % 0x400)
    }
}

/// Appends the JSON escape of one character to `out`.
pub fn push_esc_char(out: &mut Vec<u8>, c: char)
    ensures
        final(out)@ == old(out)@ + esc_char(c),
{
    let n = c as u32;
    if c == '"' {
        out.push('\\' as u8);
        out.push('"' as u8);
        proof {
            assert(out@ =~= old(out)@ + esc_char(c));
        }
    } else if c == '\\' {
        out.push('\\' as u8);
        out.push('\\' as u8);
        proof {
            assert(out@ =~= old(out)@ + esc_char(c));
        }
    } else if 0x20 <= n && n < 0x7f {
        out.push(n as u8);
        proof {
            assert(out@ =~= old(out)@ + esc_char(c));
        }
    } else if n < 0x10000 {
        push_u_escape(out, n);
        proof {
            assert(out@ =~= old(out)@ + esc_char(c));
        }
    } else {
        let v = n - 0x10000;
        push_u_escape(out, 0xd800 + v / 0x400);
        push_u_escape(out, 0xdc00 + v % 0x400);
        proof {
            assert(out@ =~= old(out)@ + esc_char(c));
        }
    }
}

/// JSON escape of a character sequence.
pub open spec fn esc_str(s: Seq<char>) -> Seq<u8>
    decreases s.len(),
{
    if s.len() == 0 {
        seq![]
    } else {
        esc_str(s.drop_last()) + esc_char(s.last())
    }
}

/// A JSON string: the escaped characters between double quotes.
pub open spec fn json_string(s: Seq<char>) -> Seq<u8> {
    seq!['"' as u8] + esc_str(s) + seq!['"' as u8]
}

/// Appends the JSON string form of `s` to `out`.
pub fn push_json_string(out: &mut Vec<u8>, s: &str)
    ensures
        final(out)@ == old(out)@ + json_string(s@),
{
    out.push('"' as u8);
    let n = s.unicode_len();
    let mut i: usize = 0;
    while i < n
        invariant
            n == s@.len(),
            i <= n,
            out@ == old(out)@ + seq!['"' as u8] + esc_str(s@.subrange(0, i as int)),
        decreases n - i,
    {
        let c = s.get_char(i);
        push_esc_char(out, c);
        i = i + 1;
        proof {
            assert(s@.subrange(0, i as int).drop_last() =~= s@.subrange(0, i - 1));
            assert(s@.subrange(0, i as int).last() == s@[i - 1]);
        }
    }
    out.push('"' as u8);
    proof {
        assert(s@.subrange(0, s@.len() as int) =~= s@);
        assert(out@ =~= old(out)@ + json_string(s@));
    }
}


/// Whether every byte is an ASCII decimal digit.
pub open spec fn all_digits(s: Seq<u8>) -> bool {
    forall|i: int| 0 <= i < s.len() ==> '0' as u8 <= #[trigger] s[i] <= '9' as u8
}

/// The value of a string of decimal digits, most significant first.
pub open spec fn digits_val(s: Seq<u8>) -> int
    decreases s.len(),
{
    if s.len() == 0 {
        0
    } else {
        digits_val(s.drop_last()) * 10 + (s.last() - '0' as u8)
    }
}

/// A padded rendering has exactly the asked-for number of digits.
pub proof fn lemma_dec_pad_len(n: int, w: nat)
    ensures
        dec_pad(n, w).len() == w,
    decreases w,
{
    if w > 0 {
        lemma_dec_pad_len(n / 10, (w - 1) as nat);
    }
}

/// Reading the padded rendering of `n` back gives `n`, when `n` fits
/// in the width.
pub proof fn lemma_dec_pad_val(n: int, w: nat)
    requires
        0 <= n < crate::time::pow10(w),
    ensures
        all_digits(dec_pad(n, w)),
        digits_val(dec_pad(n, w)) == n,
    decreases w,
{
    if w == 0 {
        assert(dec_pad(n, 0).len() == 0);
    } else {
        assert(0 <= n % 10 < 10) by {
            vstd::arithmetic::div_mod::lemma_mod_division_less_than_divisor(n, 10);
        }
        assert(0 <= n / 10 < crate::time::pow10((w - 1) as nat)) by {
            vstd::arithmetic::div_mod::lemma_div_pos_is_pos(n, 10);
            assert(crate::time::pow10(w) == 10 * crate::time::pow10((w - 1) as nat));
            vstd::arithmetic::div_mod::lemma_fundamental_div_mod(n, 10);
            assert(n / 10 < crate::time::pow10((w - 1) as nat)) by (nonlinear_arith)
                requires
                    n < 10 * crate::time::pow10((w - 1) as nat),
                    0 <= n % 10,
                    n == 10 * (n / 10) + n % 10,
            ;
        }
        lemma_dec_pad_val(n / 10, (w - 1) as nat);
        let inner = dec_pad(n / 10, (w - 1) as nat);
        assert(dec_pad(n, w) == inner.push(digit(n % 10)));
        assert(dec_pad(n, w).drop_last() =~= inner);
        assert(dec_pad(n, w).last() == digit(n % 10));
        assert(digit(n % 10) - '0' as u8 == n % 10);
        assert(digits_val(dec_pad(n, w)) == digits_val(inner) * 10 + n % 10);
        vstd::arithmetic::div_mod::lemma_fundamental_div_mod(n, 10);
    }
}

/// Reads the decimal value of the digit bytes in `s[lo..hi]`; `None`
/// when some byte there is not a digit.
pub fn parse_digits(s: &[u8], lo: usize, hi: usize) -> (r: Option<u64>)
    requires
        lo <= hi <= s@.len(),
        hi - lo <= 8,
    ensures
        match r {
            Some(v) => all_digits(s@.subrange(lo as int, hi as int)) && v as int == digits_val(
                s@.subrange(lo as int, hi as int),
            ) && (v as int) < crate::time::pow10((hi - lo) as nat),
            None => !all_digits(s@.subrange(lo as int, hi as int)),
        },
{
    let mut acc: u64 = 0;
    let mut i: usize = lo;
    proof {
        reveal_with_fuel(crate::time::pow10, 9);
    }
    while i < hi
        invariant
            lo <= i <= hi <= s@.len(),
            hi - lo <= 8,
            all_digits(s@.subrange(lo as int, i as int)),
            acc as int == digits_val(s@.subrange(lo as int, i as int)),
            (acc as int) < crate::time::pow10((i - lo) as nat),
            crate::time::pow10(8) == 100000000,
        decreases hi - i,
    {
        let c = s[i];
        if c < '0' as u8 || c > '9' as u8 {
            proof {
                assert(s@.subrange(lo as int, hi as int)[i - lo] == s@[i as int]);
            }
            return None;
        }
        proof {
            assert(crate::time::pow10(((i + 1) - lo) as nat) == 10 * crate::time::pow10(
                (i - lo) as nat,
            ));
            assert(crate::time::pow10((i - lo) as nat) <= crate::time::pow10(8)) by {
                lemma_pow10_le((i - lo) as nat, 8);
            }
        }
        acc = acc * 10 + ((c - '0' as u8) as u64);
        i = i + 1;
        proof {
            assert(s@.subrange(lo as int, i as int).drop_last() =~= s@.subrange(
                lo as int,
                i - 1,
            ));
            assert(s@.subrange(lo as int, i as int).last() == s@[i - 1]);
        }
    }
    proof {
        assert(s@.subrange(lo as int, i as int) =~= s@.subrange(lo as int, hi as int));
    }
    Some(acc)
}

/// `pow10` does not decrease with the exponent.
pub proof fn lemma_pow10_le(a: nat, b: nat)
    requires
        a <= b,
    ensures
        crate::time::pow10(a) <= crate::time::pow10(b),
    decreases b,
{
    if a < b {
        lemma_pow10_le(a, (b - 1) as nat);
        assert(crate::time::pow10(b) == 10 * crate::time::pow10((b - 1) as nat));
        assert(crate::time::pow10((b - 1) as nat) >= 1) by {
            lemma_pow10_pos((b - 1) as nat);
        }
    }
}

/// `pow10` is positive.
pub proof fn lemma_pow10_pos(w: nat)
    ensures
        crate::time::pow10(w) >= 1,
    decreases w,
{
    if w > 0 {
        lemma_pow10_pos((w - 1) as nat);
    }
}


/// Relies on char::from_u32: it returns `Some` exactly on Unicode
/// scalar values, and the returned character has that value.
pub assume_specification[ char::from_u32 ](v: u32) -> (r: Option<char>)
    ensures
        r is Some <==> vstd::utf8::is_scalar(v),
        match r {
            Option::Some(c) => c as u32 == v,
            Option::None => true,
        },
;

/// Whether `b` is a lower-case hexadecimal digit byte.
pub open spec fn is_hex(b: u8) -> bool {
    ('0' as u8 <= b && b <= '9' as u8) || ('a' as u8 <= b && b <= 'f' as u8)
}

/// The value of a lower-case hexadecimal digit byte.
pub open spec fn hex_val(b: u8) -> int {
    if '0' as u8 <= b && b <= '9' as u8 {
        b - '0' as u8
    } else {
        b - 'a' as u8 + 10
    }
}

/// The value of four hexadecimal digit bytes, most significant first.
pub open spec fn hex4_val(s: Seq<u8>) -> int {
    hex_val(s[0]) * 4096 + hex_val(s[1]) * 256 + hex_val(s[2]) * 16 + hex_val(s[3])
}

/// Reading a hexadecimal digit back gives the value it was made from.
pub proof fn lemma_hex_digit_val(n: int)
    requires
        0 <= n < 16,
    ensures
        is_hex(hex_digit(n)),
        hex_val(hex_digit(n)) == n,
{
}

/// Reading four hexadecimal digits back gives the value they were
/// made from.
pub proof fn lemma_hex4_val(n: int)
    requires
        0 <= n < 0x10000,
    ensures
        forall|i: int| 0 <= i < 4 ==> is_hex(#[trigger] hex4(n)[i]),
        hex4_val(hex4(n)) == n,
{
    vstd::arithmetic::div_mod::lemma_mod_division_less_than_divisor(n / 4096, 16);
    vstd::arithmetic::div_mod::lemma_mod_division_less_than_divisor(n / 256, 16);
    vstd::arithmetic::div_mod::lemma_mod_division_less_than_divisor(n / 16, 16);
    vstd::arithmetic::div_mod::lemma_mod_division_less_than_divisor(n, 16);
    vstd::arithmetic::div_mod::lemma_div_pos_is_pos(n, 4096);
    vstd::arithmetic::div_mod::lemma_div_pos_is_pos(n, 256);
    vstd::arithmetic::div_mod::lemma_div_pos_is_pos(n, 16);
    lemma_hex_digit_val(n / 4096 % 16);
    lemma_hex_digit_val(n / 256 % 16);
    lemma_hex_digit_val(n / 16 % 16);
    lemma_hex_digit_val(n % 16);
    assert(n / 4096 < 16) by (nonlinear_arith)
        requires
            0 <= n < 0x10000,
    ;
    vstd::arithmetic::div_mod::lemma_small_mod((n / 4096) as nat, 16);
    vstd::arithmetic::div_mod::lemma_fundamental_div_mod(n, 4096);
    vstd::arithmetic::div_mod::lemma_breakdown(n, 256, 16);
    vstd::arithmetic::div_mod::lemma_breakdown(n, 16, 16);
    assert(n % 4096 == n % ((256 * 16) as int)) by (nonlinear_arith);
    assert(n % 256 == n % ((16 * 16) as int)) by (nonlinear_arith);
}

/// What a sequence of JSON-escaped bytes, as this library writes them,
/// reads back as: `None` when the bytes are not such an escaping.
pub open spec fn unesc(s: Seq<u8>) -> Option<Seq<char>>
    decreases s.len(),
{
    if s.len() == 0 {
        Some(seq![])
    } else if s[0] == '\\' as u8 {
        if s.len() >= 2 && s[1] == '"' as u8 {
            unesc_cons('"', unesc(s.skip(2)))
        } else if s.len() >= 2 && s[1] == '\\' as u8 {
            unesc_cons('\\', unesc(s.skip(2)))
        } else if s.len() >= 6 && s[1] == 'u' as u8 && is_hex(s[2]) && is_hex(s[3]) && is_hex(s[4])
            && is_hex(s[5]) {
            let v = hex4_val(s.subrange(2, 6));
            if 0xd800 <= v <= 0xdbff {
                if s.len() >= 12 && s[6] == '\\' as u8 && s[7] == 'u' as u8 && is_hex(s[8])
                    && is_hex(s[9]) && is_hex(s[10]) && is_hex(s[11]) {
                    let lo = hex4_val(s.subrange(8, 12));
                    if 0xdc00 <= lo <= 0xdfff {
                        unesc_cons(
                            ((0x10000 + (v - 0xd800) * 0x400 + (lo - 0xdc00)) as u32) as char,
                            unesc(s.skip(12)),
                        )
                    } else {
                        None
                    }
                } else {
                    None
                }
            } else if 0xdc00 <= v <= 0xdfff {
                None
            } else {
                unesc_cons((v as u32) as char, unesc(s.skip(6)))
            }
        } else {
            None
        }
    } else if 0x20 <= s[0] && s[0] < 0x7f && s[0] != '"' as u8 {
        unesc_cons(((s[0] as u32) as char), unesc(s.skip(1)))
    } else {
        None
    }
}

/// Puts one read character in front of what the rest reads back as.
pub open spec fn unesc_cons(c: char, rest: Option<Seq<char>>) -> Option<Seq<char>> {
    match rest {
        Option::Some(r) => Some(seq![c] + r),
        Option::None => None,
    }
}

/// The escaping of a sequence, seen from its first character.
pub proof fn lemma_esc_str_first(s: Seq<char>)
    requires
        s.len() > 0,
    ensures
        esc_str(s) == esc_char(s[0]) + esc_str(s.drop_first()),
    decreases s.len(),
{
    if s.len() == 1 {
        assert(s.drop_last() =~= Seq::<char>::empty());
        assert(s.drop_first() =~= Seq::<char>::empty());
        assert(esc_str(s) == esc_str(s.drop_last()) + esc_char(s.last()));
        assert(Seq::<u8>::empty() + esc_char(s[0]) =~= esc_char(s[0]) + Seq::<u8>::empty());
    } else {
        lemma_esc_str_first(s.drop_last());
        assert(s.drop_last()[0] == s[0]);
        assert(s.drop_last().drop_first() =~= s.drop_first().drop_last());
        assert(s.drop_first().last() == s.last());
        assert(esc_str(s) == esc_str(s.drop_last()) + esc_char(s.last()));
        assert(esc_str(s.drop_last()) == esc_char(s[0]) + esc_str(s.drop_first().drop_last()));
        assert(esc_str(s.drop_first()) == esc_str(s.drop_first().drop_last()) + esc_char(s.last()));
        assert((esc_char(s[0]) + esc_str(s.drop_first().drop_last())) + esc_char(s.last())
            =~= esc_char(s[0]) + (esc_str(s.drop_first().drop_last()) + esc_char(s.last())));
    }
}

/// Reading one escaped character off the front of a byte sequence
/// gives that character back, whatever follows.
#[verifier::rlimit(60)]
proof fn lemma_unesc_step(c: char, tail: Seq<u8>)
    ensures
        unesc(esc_char(c) + tail) == unesc_cons(c, unesc(tail)),
{
    broadcast use vstd::utf8::char_is_scalar;
    broadcast use vstd::utf8::char_u32_cast;

    let e = esc_char(c);
    let t = e + tail;
    assert(forall|i: int| 0 <= i < e.len() ==> #[trigger] t[i] == e[i]);
    let cv = c as u32;
    assert(vstd::utf8::is_scalar(cv));
    if c == '"' {
        assert(t.skip(2) =~= tail);
        assert(unesc(t) == unesc_cons('"', unesc(t.skip(2))));
    } else if c == '\\' {
        assert(t.skip(2) =~= tail);
        assert(unesc(t) == unesc_cons('\\', unesc(t.skip(2))));
    } else if 0x20 <= cv && cv < 0x7f {
        assert(e =~= seq![c as u8]);
        assert(t[0] == c as u8);
        assert(c as u8 != '\\' as u8 && c as u8 != '"' as u8);
        assert(((t[0] as u32) as char) == c) by {
            assert(t[0] as u32 == cv);
        }
        assert(t.skip(1) =~= tail);
        assert(unesc(t) == unesc_cons(c, unesc(t.skip(1))));
    } else if cv < 0x10000 {
        lemma_hex4_val(cv as int);
        assert(t[0] == '\\' as u8 && t[1] == 'u' as u8);
        assert(t.subrange(2, 6) =~= hex4(cv as int));
        let v = hex4_val(t.subrange(2, 6));
        assert(v == cv);
        assert(!(0xd800 <= v <= 0xdfff));
        assert(((v as u32) as char) == c);
        assert(t.skip(6) =~= tail);
        assert(unesc(t) == unesc_cons(c, unesc(t.skip(6))));
    } else {
        lemma_unesc_step_supplementary(c, tail);
    }
}

/// The step for a character beyond the basic plane: the two
/// surrogate escapes recombine into the character.
#[verifier::rlimit(60)]
proof fn lemma_unesc_step_supplementary(c: char, tail: Seq<u8>)
    requires
        c as u32 >= 0x10000,
    ensures
        unesc(esc_char(c) + tail) == unesc_cons(c, unesc(tail)),
{
    broadcast use vstd::utf8::char_is_scalar;
    broadcast use vstd::utf8::char_u32_cast;

    let e = esc_char(c);
    let t = e + tail;
    assert(forall|i: int| 0 <= i < e.len() ==> #[trigger] t[i] == e[i]);
    let cv = c as u32;
    assert(vstd::utf8::is_scalar(cv));
    assert(cv <= 0x10ffff) by {
        assert(vstd::utf8::is_scalar(cv));
        assert(cv >= 0x10000);
        assert(vstd::utf8::has_width_4_encoding(cv) ==> cv <= 0x10ffff);
    }
    let w: int = cv as int - 0x10000;
    let hi: int = 0xd800 + w / 0x400;
    let lo: int = 0xdc00 + w % 0x400;
    vstd::arithmetic::div_mod::lemma_fundamental_div_mod(w, 0x400);
    vstd::arithmetic::div_mod::lemma_mod_division_less_than_divisor(w, 0x400);
    vstd::arithmetic::div_mod::lemma_div_pos_is_pos(w, 0x400);
    assert(w <= 0xfffff);
    assert(w / 0x400 <= 0x3ff) by (nonlinear_arith)
        requires
            0 <= w <= 0xfffff,
            w == 0x400 * (w / 0x400) + w % 0x400,
            0 <= w % 0x400,
    ;
    lemma_hex4_val(hi as int);
    lemma_hex4_val(lo as int);
    assert(t[0] == '\\' as u8 && t[1] == 'u' as u8);
    assert(t.subrange(2, 6) =~= hex4(hi as int));
    assert(t[6] == '\\' as u8 && t[7] == 'u' as u8);
    assert(t.subrange(8, 12) =~= hex4(lo as int));
    let v = hex4_val(t.subrange(2, 6));
    let v2 = hex4_val(t.subrange(8, 12));
    assert(v == hi && v2 == lo);
    assert(0xd800 <= v <= 0xdbff);
    assert(0xdc00 <= v2 <= 0xdfff);
    assert(0x10000 + (v - 0xd800) * 0x400 + (v2 - 0xdc00) == cv);
    assert((((0x10000 + (v - 0xd800) * 0x400 + (v2 - 0xdc00)) as u32) as char) == c);
    assert(t.skip(12) =~= tail);
    assert(unesc(t) == unesc_cons(c, unesc(t.skip(12))));
}

/// Reading an escaped sequence back gives the original characters:
/// the JSON string escaping loses nothing.
pub proof fn lemma_unesc_round_trip(s: Seq<char>)
    ensures
        unesc(esc_str(s)) == Some(s),
    decreases s.len(),
{
    if s.len() == 0 {
        assert(esc_str(s).len() == 0);
        assert(Seq::<char>::empty() =~= s);
    } else {
        let c = s[0];
        let rest = s.drop_first();
        lemma_esc_str_first(s);
        lemma_unesc_round_trip(rest);
        lemma_unesc_step(c, esc_str(rest));
        assert(unesc(esc_str(s)) == unesc_cons(c, Some(rest)));
        assert(seq![c] + rest =~= s);
    }
}


/// The value of one lower-case hexadecimal digit byte; `None` when the
/// byte is not such a digit.
fn hex_digit_at(b: u8) -> (r: Option<u32>)
    ensures
        match r {
            Option::Some(v) => is_hex(b) && v == hex_val(b) && v < 16,
            Option::None => !is_hex(b),
        },
{
    if '0' as u8 <= b && b <= '9' as u8 {
        Some((b - '0' as u8) as u32)
    } else if 'a' as u8 <= b && b <= 'f' as u8 {
        Some((b - 'a' as u8) as u32 + 10)
    } else {
        None
    }
}

/// The value of the four hexadecimal digit bytes at `p`; `None` when
/// one of them is not such a digit.
fn hex4_at(s: &[u8], p: usize) -> (r: Option<u32>)
    requires
        p + 4 <= s@.len(),
    ensures
        match r {
            Option::Some(v) => is_hex(s@[p as int]) && is_hex(s@[p + 1]) && is_hex(s@[p + 2])
                && is_hex(s@[p + 3]) && v == hex4_val(s@.subrange(p as int, p + 4)) && v < 0x10000,
            Option::None => !(is_hex(s@[p as int]) && is_hex(s@[p + 1]) && is_hex(s@[p + 2])
                && is_hex(s@[p + 3])),
        },
{
    let d0 = match hex_digit_at(s[p]) {
        Some(v) => v,
        None => {
            return None;
        },
    };
    let d1 = match hex_digit_at(s[p + 1]) {
        Some(v) => v,
        None => {
            return None;
        },
    };
    let d2 = match hex_digit_at(s[p + 2]) {
        Some(v) => v,
        None => {
            return None;
        },
    };
    let d3 = match hex_digit_at(s[p + 3]) {
        Some(v) => v,
        None => {
            return None;
        },
    };
    let v = ((d0 * 16 + d1) * 16 + d2) * 16 + d3;
    proof {
        assert(s@.subrange(p as int, p + 4)[0] == s@[p as int]);
        assert(s@.subrange(p as int, p + 4)[1] == s@[p + 1]);
        assert(s@.subrange(p as int, p + 4)[2] == s@[p + 2]);
        assert(s@.subrange(p as int, p + 4)[3] == s@[p + 3]);
    }
    Some(v)
}

/// Reads one escaped character at `i`: pushes it and says where the
/// next one starts; `None` when the bytes there are not an escape this
/// library writes.
#[verifier::rlimit(100)]
fn unescape_step(s: &[u8], i: usize, out: &mut Vec<char>) -> (r: Option<usize>)
    requires
        i < s@.len(),
    ensures
        match r {
            Option::Some(j) => i < j <= s@.len() && final(out)@.len() == old(out)@.len() + 1
                && final(out)@.drop_last() == old(out)@ && unesc(s@.skip(i as int)) == unesc_cons(
                final(out)@.last(),
                unesc(s@.skip(j as int)),
            ),
            Option::None => unesc(s@.skip(i as int)) is None && final(out)@ == old(out)@,
        },
{
    broadcast use vstd::utf8::char_u32_cast;

    let ghost su = s@.skip(i as int);
    proof {
        assert(forall|k: int| 0 <= k < su.len() ==> #[trigger] su[k] == s@[i + k]);
    }
    let n = s.len();
    let b = s[i];
    if b == '\\' as u8 {
        if n - i < 2 {
            return None;
        }
        let b2 = s[i + 1];
        if b2 == '"' as u8 {
            out.push('"');
            proof {
                assert(su.skip(2) =~= s@.skip(i + 2));
                assert(out@.drop_last() =~= old(out)@);
                assert(unesc(su) == unesc_cons('"', unesc(s@.skip(i + 2))));
            }
            Some(i + 2)
        } else if b2 == '\\' as u8 {
            out.push('\\');
            proof {
                assert(su.skip(2) =~= s@.skip(i + 2));
                assert(out@.drop_last() =~= old(out)@);
                assert(unesc(su) == unesc_cons('\\', unesc(s@.skip(i + 2))));
            }
            Some(i + 2)
        } else if b2 == 'u' as u8 {
            unescape_step_unicode(s, i, out)
        } else {
            return None;
        }
    } else if 0x20 <= b && b < 0x7f && b != '"' as u8 {
        let c = b as char;
        out.push(c);
        proof {
            assert(su.skip(1) =~= s@.skip(i + 1));
            assert(out@.drop_last() =~= old(out)@);
            assert(unesc(su) == unesc_cons(out@.last(), unesc(s@.skip(i + 1))));
        }
        Some(i + 1)
    } else {
        return None;
    }
}

/// What one basic-plane `\uXXXX` escape at the front reads as.
proof fn lemma_unesc_at_bmp(su: Seq<u8>, c: char)
    requires
        su.len() >= 6,
        su[0] == '\\' as u8,
        su[1] == 'u' as u8,
        is_hex(su[2]) && is_hex(su[3]) && is_hex(su[4]) && is_hex(su[5]),
        !(0xd800 <= hex4_val(su.subrange(2, 6)) <= 0xdfff),
        0 <= hex4_val(su.subrange(2, 6)) < 0x10000,
        c as u32 == hex4_val(su.subrange(2, 6)),
    ensures
        unesc(su) == unesc_cons(c, unesc(su.skip(6))),
{
    broadcast use vstd::utf8::char_u32_cast;

    let v = hex4_val(su.subrange(2, 6));
    assert(((v as u32) as char) == c);
}

/// What one surrogate-pair escape at the front reads as.
proof fn lemma_unesc_at_pair(su: Seq<u8>, c: char)
    requires
        su.len() >= 12,
        su[0] == '\\' as u8,
        su[1] == 'u' as u8,
        is_hex(su[2]) && is_hex(su[3]) && is_hex(su[4]) && is_hex(su[5]),
        su[6] == '\\' as u8,
        su[7] == 'u' as u8,
        is_hex(su[8]) && is_hex(su[9]) && is_hex(su[10]) && is_hex(su[11]),
        0xd800 <= hex4_val(su.subrange(2, 6)) <= 0xdbff,
        0xdc00 <= hex4_val(su.subrange(8, 12)) <= 0xdfff,
        c as u32 == 0x10000 + (hex4_val(su.subrange(2, 6)) - 0xd800) * 0x400 + (hex4_val(
            su.subrange(8, 12),
        ) - 0xdc00),
    ensures
        unesc(su) == unesc_cons(c, unesc(su.skip(12))),
{
    broadcast use vstd::utf8::char_u32_cast;

    let v = hex4_val(su.subrange(2, 6));
    let lo = hex4_val(su.subrange(8, 12));
    assert(((0x10000 + (v - 0xd800) * 0x400 + (lo - 0xdc00)) as u32) as char == c);
}

/// Reads one `\uXXXX` escape, or a surrogate pair of two, at `i`.
#[verifier::rlimit(100)]
fn unescape_step_unicode(s: &[u8], i: usize, out: &mut Vec<char>) -> (r: Option<usize>)
    requires
        i + 1 < s@.len(),
        s@[i as int] == '\\' as u8,
        s@[i + 1] == 'u' as u8,
    ensures
        match r {
            Option::Some(j) => i < j <= s@.len() && final(out)@.len() == old(out)@.len() + 1
                && final(out)@.drop_last() == old(out)@ && unesc(s@.skip(i as int)) == unesc_cons(
                final(out)@.last(),
                unesc(s@.skip(j as int)),
            ),
            Option::None => unesc(s@.skip(i as int)) is None && final(out)@ == old(out)@,
        },
{
    broadcast use vstd::utf8::char_u32_cast;

    let ghost su = s@.skip(i as int);
    proof {
        assert(forall|k: int| 0 <= k < su.len() ==> #[trigger] su[k] == s@[i + k]);
    }
    let n = s.len();
    if n - i < 6 {
        return None;
    }
    let v = match hex4_at(s, i + 2) {
        Some(v) => v,
        None => {
            proof {
                assert(su.subrange(2, 6) =~= s@.subrange(i + 2, i + 6));
            }
            return None;
        },
    };
    proof {
        assert(su.subrange(2, 6) =~= s@.subrange(i + 2, i + 6));
    }
    if 0xd800 <= v && v <= 0xdbff {
        if n - i < 12 {
            return None;
        }
        if !(s[i + 6] == '\\' as u8 && s[i + 7] == 'u' as u8) {
            return None;
        }
        let lo = match hex4_at(s, i + 8) {
            Some(v) => v,
            None => {
                proof {
                    assert(su.subrange(8, 12) =~= s@.subrange(i + 8, i + 12));
                }
                return None;
            },
        };
        proof {
            assert(su.subrange(8, 12) =~= s@.subrange(i + 8, i + 12));
        }
        if !(0xdc00 <= lo && lo <= 0xdfff) {
            return None;
        }
        let code = 0x10000 + (v - 0xd800) * 0x400 + (lo - 0xdc00);
        let c = match char::from_u32(code) {
            Some(c) => c,
            None => {
                proof {
                    assert(vstd::utf8::is_scalar(code));
                    assert(false);
                }
                return None;
            },
        };
        out.push(c);
        proof {
            assert(hex4_val(su.subrange(2, 6)) == v);
            assert(hex4_val(su.subrange(8, 12)) == lo);
            lemma_unesc_at_pair(su, c);
            assert(su.skip(12) =~= s@.skip(i + 12));
            assert(out@.drop_last() =~= old(out)@);
        }
        Some(i + 12)
    } else if 0xdc00 <= v && v <= 0xdfff {
        return None;
    } else {
        let c = match char::from_u32(v) {
            Some(c) => c,
            None => {
                proof {
                    assert(vstd::utf8::is_scalar(v));
                    assert(false);
                }
                return None;
            },
        };
        out.push(c);
        proof {
            assert(hex4_val(su.subrange(2, 6)) == v);
            lemma_unesc_at_bmp(su, c);
            assert(su.skip(6) =~= s@.skip(i + 6));
            assert(out@.drop_last() =~= old(out)@);
        }
        Some(i + 6)
    }
}

/// Reads a JSON-escaped byte sequence, as this library writes them,
/// back into its characters; `None` when the bytes are not such an
/// escaping.
pub fn unescape(s: &[u8]) -> (r: Option<Vec<char>>)
    ensures
        match r {
            Option::Some(cs) => unesc(s@) == Some(cs@),
            Option::None => unesc(s@) is None,
        },
{
    let n = s.len();
    let mut out: Vec<char> = Vec::new();
    let mut i: usize = 0;
    proof {
        assert(s@.skip(0) =~= s@);
        match unesc(s@) {
            Option::Some(r) => {
                assert(Seq::<char>::empty() + r =~= r);
            },
            Option::None => {},
        }
    }
    while i < n
        invariant
            i <= n,
            n == s@.len(),
            unesc(s@) == (match unesc(s@.skip(i as int)) {
                Option::Some(rest) => Some(out@ + rest),
                Option::None => None::<Seq<char>>,
            }),
        decreases n - i,
    {
        let prev = i;
        match unescape_step(s, i, &mut out) {
            Some(j) => {
                i = j;
                proof {
                    lemma_unesc_shift(s@, out@, out@.last(), prev as int, j - prev);
                }
            },
            None => {
                return None;
            },
        }
    }
    proof {
        assert(s@.skip(n as int) =~= Seq::<u8>::empty());
        assert(out@ + Seq::<char>::empty() =~= out@);
    }
    Some(out)
}

/// One accepted character moves the parse forward: what the whole
/// input reads as stays expressed through the output so far and the
/// rest of the input.
proof fn lemma_unesc_shift(s: Seq<u8>, out: Seq<char>, c: char, at: int, width: int)
    requires
        0 <= at,
        0 < width,
        at + width <= s.len(),
        out.len() > 0,
        out.last() == c,
        unesc(s.skip(at)) == unesc_cons(c, unesc(s.skip(at + width))),
        unesc(s) == (match unesc(s.skip(at)) {
            Option::Some(rest) => Some(out.drop_last() + rest),
            Option::None => None::<Seq<char>>,
        }),
    ensures
        unesc(s) == (match unesc(s.skip(at + width)) {
            Option::Some(rest) => Some(out + rest),
            Option::None => None::<Seq<char>>,
        }),
{
    match unesc(s.skip(at + width)) {
        Option::Some(rest) => {
            assert(unesc(s.skip(at)) == Some(seq![c] + rest));
            assert(out.drop_last() + (seq![c] + rest) =~= out + rest);
        },
        Option::None => {},
    }
}

} // verus!
