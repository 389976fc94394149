use vstd::prelude::*;

verus! {

/// The ASCII lowercase hex digit for `n < 16`.
pub open spec fn hex_digit(n: u8) -> u8 {
    if n < 10 {
        (48 + n) as u8
    } else {
        (87 + n) as u8
    }
}

/// The wire text of a byte string: `0x` and two lowercase hex digits per byte.
pub open spec fn hex_of(b: Seq<u8>) -> Seq<u8> {
    Seq::new(
        (2 + 2 * b.len()) as nat,
        |j: int|
            if j == 0 {
                48u8
            } else if j == 1 {
                120u8
            } else if (j - 2) % 2 == 0 {
                hex_digit(b[(j - 2) / 2] / 16)
            } else {
                hex_digit(b[(j - 2) / 2] % 16)
            },
    )
}

/// The value of a lowercase hex digit, or `None` for any other character.
pub open spec fn digit_value(c: u8) -> Option<u8> {
    if 48 <= c <= 57 {
        Some((c - 48) as u8)
    } else if 97 <= c <= 102 {
        Some((c - 87) as u8)
    } else {
        None
    }
}

fn digit_of(n: u8) -> (r: u8)
    requires
        n < 16,
    ensures
        r == hex_digit(n),
        digit_value(r) == Some(n),
{
    if n < 10 {
        48 + n
    } else {
        87 + n
    }
}

fn value_of_digit(c: u8) -> (r: Option<u8>)
    ensures
        r == digit_value(c),
        r.is_some() ==> r.unwrap() < 16 && hex_digit(r.unwrap()) == c,
{
    if 48 <= c && c <= 57 {
        Some(c - 48)
    } else if 97 <= c && c <= 102 {
        Some(c - 87)
    } else {
        None
    }
}

/// Renders bytes as their wire text.
pub fn encode_hex(b: &Vec<u8>) -> (r: Vec<u8>)
    requires
        2 + 2 * b@.len() <= usize::MAX,
    ensures
        r@ == hex_of(b@),
{
    let mut r: Vec<u8> = Vec::new();
    r.push(48u8);
    r.push(120u8);
    let mut i: usize = 0;
    while i < b.len()
        invariant
            i <= b@.len(),
            2 + 2 * b@.len() <= usize::MAX,
            r@.len() == 2 + 2 * i,
            forall|j: int| 0 <= j < 2 + 2 * i ==> #[trigger] r@[j] == hex_of(b@)[j],
        decreases b@.len() - i,
    {
        let x = b[i];
        r.push(digit_of(x / 16));
        r.push(digit_of(x % 16));
        proof {
            let hi = 2 + 2 * i as int;
            assert((hi - 2) / 2 == i as int && (hi - 2) % 2 == 0);
            assert((hi + 1 - 2) / 2 == i as int && (hi + 1 - 2) % 2 == 1);
        }
        i = i + 1;
    }
    assert(r@ =~= hex_of(b@));
    r
}

/// Reads wire text back into bytes; `None` exactly when the text is not the wire
/// text of any byte string.
pub fn decode_hex(s: &Vec<u8>) -> (r: Option<Vec<u8>>)
    ensures
        r.is_some() ==> hex_of(r.unwrap()@) == s@,
        r.is_none() ==> forall|b: Seq<u8>| hex_of(b) != s@,
{
    if s.len() < 2 || s[0] != 48u8 || s[1] != 120u8 || s.len() % 2 != 0 {
        proof {
            assert forall|b: Seq<u8>| hex_of(b) != s@ by {
                if hex_of(b) == s@ {
                    assert(hex_of(b)[0] == 48u8);
                    assert(hex_of(b)[1] == 120u8);
                }
            }
        }
        return None;
    }
    let len: usize = s.len();
    let n: usize = (len - 2) / 2;
    assert(s@.len() == 2 + 2 * n);
    let mut out: Vec<u8> = Vec::new();
    let mut i: usize = 0;
    while i < n
        invariant
            i <= n,
            len == s@.len(),
            s@.len() == 2 + 2 * n,
            s@[0] == 48u8,
            s@[1] == 120u8,
            out@.len() == i,
            forall|k: int| 0 <= k < i ==> hex_digit(#[trigger] out@[k] / 16) == s@[2 + 2 * k] && hex_digit(out@[k] % 16)
                == s@[3 + 2 * k],
        decreases n - i,
    {
        let hi = value_of_digit(s[2 + 2 * i]);
        let lo = value_of_digit(s[3 + 2 * i]);
        match (hi, lo) {
            (Some(h), Some(l)) => {
                let x: u8 = h * 16 + l;
                assert(x / 16 == h && x % 16 == l) by (nonlinear_arith)
                    requires
                        x == h * 16 + l,
                        h < 16,
                        l < 16,
                ;
                out.push(x);
            },
            _ => {
                proof {
                    assert forall|b: Seq<u8>| hex_of(b) != s@ by {
                        if hex_of(b) == s@ {
                            let j = 2 + 2 * i as int;
                            assert((j - 2) / 2 == i as int && (j - 2) % 2 == 0);
                            assert((j + 1 - 2) / 2 == i as int && (j + 1 - 2) % 2 == 1);
                            let v = b[i as int];
                            assert(hex_of(b)[j] == hex_digit(v / 16));
                            assert(hex_of(b)[j + 1] == hex_digit(v % 16));
                            assert(digit_value(hex_digit(v / 16)) == Some(v / 16));
                            assert(digit_value(hex_digit(v % 16)) == Some(v % 16));
                        }
                    }
                }
                return None;
            },
        }
        i = i + 1;
    }
    proof {
        assert forall|j: int| 0 <= j < s@.len() implies #[trigger] hex_of(out@)[j] == s@[j] by {
            if j >= 2 {
                let k = (j - 2) / 2;
                if (j - 2) % 2 == 0 {
                    assert(j == 2 + 2 * k);
                } else {
                    assert(j == 3 + 2 * k);
                }
            }
        }
        assert(hex_of(out@) =~= s@);
    }
    Some(out)
}

proof fn lemma_hex_digit_injective(a: u8, b: u8)
    requires
        a < 16,
        b < 16,
        hex_digit(a) == hex_digit(b),
    ensures
        a == b,
{
}

/// Distinct byte strings have distinct wire texts, so reading back what was rendered
/// gives the same bytes.
pub proof fn lemma_hex_round_trip(b: Seq<u8>, c: Seq<u8>)
    requires
        hex_of(b) == hex_of(c),
    ensures
        b == c,
{
    assert(hex_of(b).len() == 2 + 2 * b.len());
    assert(hex_of(c).len() == 2 + 2 * c.len());
    assert(b.len() == c.len());
    assert forall|i: int| 0 <= i < b.len() implies b[i] == c[i] by {
        let j = 2 + 2 * i;
        assert((j - 2) / 2 == i && (j - 2) % 2 == 0);
        assert((j + 1 - 2) / 2 == i && (j + 1 - 2) % 2 == 1);
        assert(hex_of(b)[j] == hex_digit(b[i] / 16));
        assert(hex_of(c)[j] == hex_digit(c[i] / 16));
        assert(hex_of(b)[j + 1] == hex_digit(b[i] % 16));
        assert(hex_of(c)[j + 1] == hex_digit(c[i] % 16));
        lemma_hex_digit_injective(b[i] / 16, c[i] / 16);
        lemma_hex_digit_injective(b[i] % 16, c[i] % 16);
        assert(b[i] == (b[i] / 16) * 16 + b[i] % 16);
        assert(c[i] == (c[i] / 16) * 16 + c[i] % 16);
    }
    assert(b =~= c);
}

} // verus!
