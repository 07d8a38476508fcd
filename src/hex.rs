use vstd::prelude::*;
use vstd::string::StringSliceAdditionalSpecFns;

verus! {

/// The lowercase hex digit for `d < 16`.
pub open spec fn hex_char(d: int) -> char {
    if d < 10 {
        (48 + d) as char
    } else {
        (87 + d) as char
    }
}

/// Two lowercase hex digits per byte, most significant first.
pub open spec fn hex_text(b: Seq<u8>) -> Seq<char>
    decreases b.len(),
{
    if b.len() == 0 {
        Seq::empty()
    } else {
        hex_text(b.drop_last()) + seq![hex_char(b.last() as int / 16), hex_char(b.last() as int % 16)]
    }
}

/// The value of a hex digit, either case.
pub open spec fn hex_value(c: u8) -> Option<u8> {
    if 48 <= c <= 57 {
        Some((c - 48) as u8)
    } else if 97 <= c <= 102 {
        Some((c - 87) as u8)
    } else if 65 <= c <= 70 {
        Some((c - 55) as u8)
    } else {
        None
    }
}

/// The `k`th pair of `b` is two hex digits.
pub open spec fn pair_ok(b: Seq<u8>, k: int) -> bool {
    hex_value(b[2 * k]) is Some && hex_value(b[2 * k + 1]) is Some
}

/// The byte that the `k`th pair of `b` spells.
pub open spec fn pair_value(b: Seq<u8>, k: int) -> u8 {
    (hex_value(b[2 * k])->Some_0 * 16 + hex_value(b[2 * k + 1])->Some_0) as u8
}

/// Why a string is not hex.
#[derive(Debug, Clone, Copy, PartialEq, Eq, Structural)]
pub enum HexError {
    /// An odd number of bytes.
    OddLength,
    /// The pair starting at byte `pos` is not two hex digits.
    InvalidDigit { pos: usize },
}

/// Lowercase hex text of `bytes`.
pub fn encode_hex(bytes: &[u8]) -> (r: String)
    ensures
        r@ == hex_text(bytes@),
{
    let digits = "0123456789abcdef";
    proof {
        reveal_strlit("0123456789abcdef");
    }
    assert(digits@ =~= seq![
        '0', '1', '2', '3', '4', '5', '6', '7', '8', '9', 'a', 'b', 'c', 'd', 'e', 'f',
    ]);
    assert(digits.is_ascii());
    let mut hex_string = String::new();
    let mut i: usize = 0;
    while i < bytes.len()
        invariant
            i <= bytes@.len(),
            digits.is_ascii(),
            digits@ == seq![
                '0', '1', '2', '3', '4', '5', '6', '7', '8', '9', 'a', 'b', 'c', 'd', 'e', 'f',
            ],
            hex_string@ == hex_text(bytes@.subrange(0, i as int)),
        decreases bytes@.len() - i,
    {
        let byte = bytes[i];
        let hi = (byte / 16) as usize;
        let lo = (byte % 16) as usize;
        let h = digits.substring_ascii(hi, hi + 1);
        let l = digits.substring_ascii(lo, lo + 1);
        proof {
            assert(h@ =~= seq![hex_char(byte as int / 16)]);
            assert(l@ =~= seq![hex_char(byte as int % 16)]);
            let s = bytes@.subrange(0, i as int + 1);
            assert(s.drop_last() =~= bytes@.subrange(0, i as int));
        }
        hex_string.append(h);
        hex_string.append(l);
        i += 1;
    }
    assert(bytes@.subrange(0, i as int) =~= bytes@);
    hex_string
}

fn hex_digit_value(c: u8) -> (r: Option<u8>)
    ensures
        r == hex_value(c),
{
    if 48 <= c && c <= 57 {
        Some(c - 48)
    } else if 97 <= c && c <= 102 {
        Some(c - 87)
    } else if 65 <= c && c <= 70 {
        Some(c - 55)
    } else {
        None
    }
}

/// The bytes that hex text spells, read from the string's UTF-8 bytes two at a time.
pub fn decode_hex(hex_string: &str) -> (r: Result<Vec<u8>, HexError>)
    ensures
        ({
            let b = hex_string.spec_bytes();
            &&& b.len() % 2 == 1 ==> r == Err::<Vec<u8>, HexError>(HexError::OddLength)
            &&& b.len() % 2 == 0 && (forall|k: int| 0 <= k < b.len() / 2 ==> pair_ok(b, k))
                ==> (r matches Ok(v) && v@ == Seq::new((b.len() / 2) as nat, |k: int| pair_value(b, k)))
            &&& b.len() % 2 == 0 && !(forall|k: int| 0 <= k < b.len() / 2 ==> pair_ok(b, k))
                ==> (r matches Err(HexError::InvalidDigit { pos }) && pos % 2 == 0 && pos < b.len()
                && !pair_ok(b, pos as int / 2) && forall|j: int| 0 <= j < pos / 2 ==> pair_ok(b, j))
        }),
{
    let b = hex_string.as_bytes();
    let ghost bs = hex_string.spec_bytes();
    if b.len() % 2 == 1 {
        return Err(HexError::OddLength);
    }
    let n = b.len() / 2;
    assert(bs.len() <= usize::MAX);
    let mut out: Vec<u8> = Vec::new();
    let mut k: usize = 0;
    while k < n
        invariant
            b@ == bs,
            bs == hex_string.spec_bytes(),
            bs.len() <= usize::MAX,
            bs.len() % 2 == 0,
            n == bs.len() / 2,
            k <= n,
            forall|j: int| 0 <= j < k ==> pair_ok(bs, j),
            out@ == Seq::new(k as nat, |j: int| pair_value(bs, j)),
        decreases n - k,
    {
        assert(2 * k + 2 <= bs.len()) by (nonlinear_arith)
            requires
                k < n,
                n == bs.len() / 2,
                bs.len() % 2 == 0,
        ;
        let hi = hex_digit_value(b[2 * k]);
        let lo = hex_digit_value(b[2 * k + 1]);
        match (hi, lo) {
            (Some(h), Some(l)) => {
                out.push(h * 16 + l);
                assert(out@ =~= Seq::new((k + 1) as nat, |j: int| pair_value(bs, j)));
            },
            _ => {
                assert(!pair_ok(bs, k as int));
                let pos = 2 * k;
                assert(pos / 2 == k);
                assert(forall|j: int| 0 <= j < pos / 2 ==> pair_ok(bs, j));
                assert(!(forall|j: int| 0 <= j < bs.len() / 2 ==> pair_ok(bs, j)));
                return Err(HexError::InvalidDigit { pos });
            },
        }
        k += 1;
    }
    Ok(out)
}

proof fn lemma_hex_text(b: Seq<u8>)
    ensures
        hex_text(b).len() == 2 * b.len(),
        forall|k: int|
            0 <= k < b.len() ==> hex_text(b)[2 * k] == hex_char(b[k] as int / 16) && hex_text(b)[2
                * k + 1] == hex_char(#[trigger] b[k] as int % 16),
    decreases b.len(),
{
    if b.len() > 0 {
        let d = b.drop_last();
        lemma_hex_text(d);
        assert forall|k: int| 0 <= k < b.len() implies hex_text(b)[2 * k] == hex_char(b[k] as int / 16)
            && hex_text(b)[2 * k + 1] == hex_char(#[trigger] b[k] as int % 16) by {
            if k < d.len() {
                assert(b[k] == d[k]);
            }
        }
    }
}

proof fn lemma_hex_char(d: int)
    requires
        0 <= d < 16,
    ensures
        '\0' <= hex_char(d) <= '\u{7f}',
        hex_value(hex_char(d) as u8) == Some(d as u8),
{
}

/// Decoding the text that `encode_hex` makes of some bytes gives those bytes back: the
/// text is ASCII, so its bytes are its characters, two hex digits for each byte.
pub proof fn lemma_hex_round_trip(b: Seq<u8>, s: &str)
    requires
        s@ == hex_text(b),
    ensures
        s.spec_bytes().len() == 2 * b.len(),
        forall|k: int| 0 <= k < b.len() ==> pair_ok(s.spec_bytes(), k),
        Seq::new(b.len(), |k: int| pair_value(s.spec_bytes(), k)) == b,
{
    lemma_hex_text(b);
    assert forall|i: int| 0 <= i < s@.len() implies '\0' <= #[trigger] s@[i] <= '\u{7f}' by {
        let k = i / 2;
        assert(i == 2 * k || i == 2 * k + 1);
        lemma_hex_char(b[k] as int / 16);
        lemma_hex_char(b[k] as int % 16);
    }
    assert(vstd::string::is_ascii(s));
    vstd::string::is_ascii_spec_bytes(s);
    let bs = s.spec_bytes();
    assert forall|k: int| 0 <= k < b.len() implies pair_ok(bs, k) && pair_value(bs, k) == b[k] by {
        lemma_hex_char(b[k] as int / 16);
        lemma_hex_char(b[k] as int % 16);
        assert(bs[2 * k] == s@[2 * k] as u8);
        assert(bs[2 * k + 1] == s@[2 * k + 1] as u8);
    }
    assert(Seq::new(b.len(), |k: int| pair_value(bs, k)) =~= b);
}

} // verus!
