//! Unpadded base64url over bytes: the segment encoding of the token format.
//! Both directions are executable, and decoding inverts encoding.

use vstd::prelude::*;

verus! {

/// The base64url alphabet: `A`-`Z`, `a`-`z`, `0`-`9`, `-`, `_`.
pub open spec fn b64_byte(v: int) -> u8
    recommends
        0 <= v < 64,
{
    if v < 26 {
        (65 + v) as u8
    } else if v < 52 {
        (97 + (v - 26)) as u8
    } else if v < 62 {
        (48 + (v - 52)) as u8
    } else if v == 62 {
        45u8
    } else {
        95u8
    }
}

/// The value of an alphabet byte, or nothing for a byte outside the
/// alphabet.
pub open spec fn b64_val(b: u8) -> Option<int> {
    if 65 <= b <= 90 {
        Some((b - 65) as int)
    } else if 97 <= b <= 122 {
        Some((b - 97 + 26) as int)
    } else if 48 <= b <= 57 {
        Some((b - 48 + 52) as int)
    } else if b == 45 {
        Some(62)
    } else if b == 95 {
        Some(63)
    } else {
        None
    }
}

/// Decoding an alphabet byte gives back its value.
pub proof fn lemma_b64_inverse(v: int)
    requires
        0 <= v < 64,
    ensures
        b64_val(b64_byte(v)) == Some(v),
{
}

/// The alphabet avoids the segment separator `.` and stays in ASCII.
pub proof fn lemma_b64_byte_range(v: int)
    requires
        0 <= v < 64,
    ensures
        b64_byte(v) != 46,
        b64_byte(v) < 128,
{
}

/// Unpadded base64url of a byte sequence: each group of three bytes becomes
/// four alphabet bytes; a final group of one or two bytes becomes two or
/// three.
pub open spec fn b64_encode(s: Seq<u8>) -> Seq<u8>
    decreases s.len(),
{
    if s.len() == 0 {
        Seq::empty()
    } else if s.len() == 1 {
        let b0 = s[0] as int;
        seq![b64_byte(b0 / 4), b64_byte((b0 % 4) * 16)]
    } else if s.len() == 2 {
        let b0 = s[0] as int;
        let b1 = s[1] as int;
        seq![b64_byte(b0 / 4), b64_byte((b0 % 4) * 16 + b1 / 16), b64_byte((b1 % 16) * 4)]
    } else {
        let b0 = s[0] as int;
        let b1 = s[1] as int;
        let b2 = s[2] as int;
        seq![
            b64_byte(b0 / 4),
            b64_byte((b0 % 4) * 16 + b1 / 16),
            b64_byte((b1 % 16) * 4 + b2 / 64),
            b64_byte(b2 % 64),
        ] + b64_encode(s.skip(3))
    }
}

/// The inverse of `b64_encode`: defined exactly on its canonical images.
pub open spec fn b64_decode(s: Seq<u8>) -> Option<Seq<u8>>
    decreases s.len(),
{
    if s.len() == 0 {
        Some(Seq::empty())
    } else if s.len() == 1 {
        None
    } else if s.len() == 2 {
        match (b64_val(s[0]), b64_val(s[1])) {
            (Some(v0), Some(v1)) => if v1 % 16 == 0 {
                Some(seq![(v0 * 4 + v1 / 16) as u8])
            } else {
                None
            },
            _ => None,
        }
    } else if s.len() == 3 {
        match (b64_val(s[0]), b64_val(s[1]), b64_val(s[2])) {
            (Some(v0), Some(v1), Some(v2)) => if v2 % 4 == 0 {
                Some(seq![(v0 * 4 + v1 / 16) as u8, ((v1 % 16) * 16 + v2 / 4) as u8])
            } else {
                None
            },
            _ => None,
        }
    } else {
        match (b64_val(s[0]), b64_val(s[1]), b64_val(s[2]), b64_val(s[3])) {
            (Some(v0), Some(v1), Some(v2), Some(v3)) => match b64_decode(s.skip(4)) {
                Some(rest) => Some(
                    seq![
                        (v0 * 4 + v1 / 16) as u8,
                        ((v1 % 16) * 16 + v2 / 4) as u8,
                        ((v2 % 4) * 64 + v3) as u8,
                    ] + rest,
                ),
                None => None,
            },
            _ => None,
        }
    }
}

/// Decoding inverts encoding.
pub proof fn lemma_b64_round_trip(s: Seq<u8>)
    ensures
        b64_decode(b64_encode(s)) == Some(s),
    decreases s.len(),
{
    if s.len() == 0 {
    } else if s.len() == 1 {
        let b0 = s[0] as int;
        lemma_b64_inverse(b0 / 4);
        lemma_b64_inverse((b0 % 4) * 16);
        assert(b64_decode(b64_encode(s)) == Some(seq![((b0 / 4) * 4 + ((b0 % 4) * 16) / 16) as u8]));
        assert(seq![((b0 / 4) * 4 + ((b0 % 4) * 16) / 16) as u8] =~= s);
    } else if s.len() == 2 {
        let b0 = s[0] as int;
        let b1 = s[1] as int;
        lemma_b64_inverse(b0 / 4);
        lemma_b64_inverse((b0 % 4) * 16 + b1 / 16);
        lemma_b64_inverse((b1 % 16) * 4);
        assert(b64_decode(b64_encode(s)).unwrap() =~= s);
    } else {
        let b0 = s[0] as int;
        let b1 = s[1] as int;
        let b2 = s[2] as int;
        lemma_b64_inverse(b0 / 4);
        lemma_b64_inverse((b0 % 4) * 16 + b1 / 16);
        lemma_b64_inverse((b1 % 16) * 4 + b2 / 64);
        lemma_b64_inverse(b2 % 64);
        lemma_b64_round_trip(s.skip(3));
        let g = seq![
            b64_byte(b0 / 4),
            b64_byte((b0 % 4) * 16 + b1 / 16),
            b64_byte((b1 % 16) * 4 + b2 / 64),
            b64_byte(b2 % 64),
        ];
        let e = b64_encode(s);
        assert(e == g + b64_encode(s.skip(3)));
        assert(e.len() >= 4);
        assert(e[0] == g[0] && e[1] == g[1] && e[2] == g[2] && e[3] == g[3]);
        assert(e.skip(4) =~= b64_encode(s.skip(3)));
        assert(b64_decode(e).unwrap() =~= s);
    }
}

/// Every byte of an encoding is in the alphabet: never the separator `.`,
/// always ASCII.
pub proof fn lemma_b64_encode_ascii(s: Seq<u8>)
    ensures
        forall|i: int|
            0 <= i < b64_encode(s).len() ==> #[trigger] b64_encode(s)[i] != 46 && b64_encode(s)[i]
                < 128,
    decreases s.len(),
{
    if s.len() == 0 {
    } else if s.len() == 1 {
        let b0 = s[0] as int;
        lemma_b64_byte_range(b0 / 4);
        lemma_b64_byte_range((b0 % 4) * 16);
    } else if s.len() == 2 {
        let b0 = s[0] as int;
        let b1 = s[1] as int;
        lemma_b64_byte_range(b0 / 4);
        lemma_b64_byte_range((b0 % 4) * 16 + b1 / 16);
        lemma_b64_byte_range((b1 % 16) * 4);
    } else {
        let b0 = s[0] as int;
        let b1 = s[1] as int;
        let b2 = s[2] as int;
        lemma_b64_byte_range(b0 / 4);
        lemma_b64_byte_range((b0 % 4) * 16 + b1 / 16);
        lemma_b64_byte_range((b1 % 16) * 4 + b2 / 64);
        lemma_b64_byte_range(b2 % 64);
        lemma_b64_encode_ascii(s.skip(3));
        let g = seq![
            b64_byte(b0 / 4),
            b64_byte((b0 % 4) * 16 + b1 / 16),
            b64_byte((b1 % 16) * 4 + b2 / 64),
            b64_byte(b2 % 64),
        ];
        assert forall|i: int|
            0 <= i < b64_encode(s).len() implies #[trigger] b64_encode(s)[i] != 46 && b64_encode(
            s,
        )[i] < 128 by {
            if i >= 4 {
                assert(b64_encode(s)[i] == b64_encode(s.skip(3))[i - 4]);
            } else {
                assert(b64_encode(s)[i] == g[i]);
            }
        }
    }
}

/// An alphabet byte for a value below 64.
fn b64_byte_exec(v: u8) -> (r: u8)
    requires
        v < 64,
    ensures
        r == b64_byte(v as int),
{
    if v < 26 {
        65 + v
    } else if v < 52 {
        97 + (v - 26)
    } else if v < 62 {
        48 + (v - 52)
    } else if v == 62 {
        45
    } else {
        95
    }
}

/// The value of an alphabet byte.
fn b64_val_exec(b: u8) -> (r: Option<u8>)
    ensures
        match r {
            Some(v) => b64_val(b) == Some(v as int) && v < 64,
            None => b64_val(b) is None,
        },
{
    if 65 <= b && b <= 90 {
        Some(b - 65)
    } else if 97 <= b && b <= 122 {
        Some(b - 97 + 26)
    } else if 48 <= b && b <= 57 {
        Some(b - 48 + 52)
    } else if b == 45 {
        Some(62)
    } else if b == 95 {
        Some(63)
    } else {
        None
    }
}

/// Encodes bytes as unpadded base64url.
pub fn b64_encode_bytes(s: &Vec<u8>) -> (r: Vec<u8>)
    ensures
        r@ == b64_encode(s@),
{
    let mut r: Vec<u8> = Vec::new();
    let mut k: usize = 0;
    proof {
        assert(s@.skip(0) =~= s@);
        assert(r@ + b64_encode(s@) =~= b64_encode(s@));
    }
    while s.len() - k >= 3
        invariant
            k <= s@.len(),
            k % 3 == 0,
            b64_encode(s@) == r@ + b64_encode(s@.skip(k as int)),
        decreases s@.len() - k,
    {
        let ghost r_old = r@;
        let b0 = s[k];
        let b1 = s[k + 1];
        let b2 = s[k + 2];
        r.push(b64_byte_exec(b0 / 4));
        r.push(b64_byte_exec((b0 % 4) * 16 + b1 / 16));
        r.push(b64_byte_exec((b1 % 16) * 4 + b2 / 64));
        r.push(b64_byte_exec(b2 % 64));
        proof {
            let tail = s@.skip(k as int);
            assert(tail[0] == s@[k as int]);
            assert(tail[1] == s@[k as int + 1]);
            assert(tail[2] == s@[k as int + 2]);
            assert(tail.skip(3) =~= s@.skip(k as int + 3));
            assert(r@ + b64_encode(s@.skip(k as int + 3)) =~= r_old + b64_encode(tail));
        }
        k += 3;
    }
    let rem = s.len() - k;
    if rem == 1 {
        let ghost r_old = r@;
        let b0 = s[k];
        r.push(b64_byte_exec(b0 / 4));
        r.push(b64_byte_exec((b0 % 4) * 16));
        proof {
            let tail = s@.skip(k as int);
            assert(tail.len() == 1);
            assert(tail[0] == s@[k as int]);
            assert(r@ =~= r_old + b64_encode(tail));
        }
    } else if rem == 2 {
        let ghost r_old = r@;
        let b0 = s[k];
        let b1 = s[k + 1];
        r.push(b64_byte_exec(b0 / 4));
        r.push(b64_byte_exec((b0 % 4) * 16 + b1 / 16));
        r.push(b64_byte_exec((b1 % 16) * 4));
        proof {
            let tail = s@.skip(k as int);
            assert(tail.len() == 2);
            assert(tail[0] == s@[k as int]);
            assert(tail[1] == s@[k as int + 1]);
            assert(r@ =~= r_old + b64_encode(tail));
        }
    } else {
        proof {
            assert(s@.skip(k as int).len() == 0);
            assert(r@ =~= r@ + b64_encode(s@.skip(k as int)));
        }
    }
    r
}

/// Decodes unpadded base64url; refuses anything that is not a canonical
/// encoding.
pub fn b64_decode_bytes(s: &Vec<u8>) -> (r: Option<Vec<u8>>)
    ensures
        match r {
            Some(v) => b64_decode(s@) == Some(v@),
            None => b64_decode(s@) is None,
        },
{
    let mut r: Vec<u8> = Vec::new();
    let mut k: usize = 0;
    proof {
        assert(s@.skip(0) =~= s@);
        if b64_decode(s@) is Some {
            assert(r@ + b64_decode(s@).unwrap() =~= b64_decode(s@).unwrap());
        }
    }
    while s.len() - k >= 4
        invariant
            k <= s@.len(),
            b64_decode(s@) == match b64_decode(s@.skip(k as int)) {
                Some(t) => Some(r@ + t),
                None => None::<Seq<u8>>,
            },
        decreases s@.len() - k,
    {
        let ghost r_old = r@;
        let ghost tail = s@.skip(k as int);
        proof {
            assert(tail[0] == s@[k as int]);
            assert(tail[1] == s@[k as int + 1]);
            assert(tail[2] == s@[k as int + 2]);
            assert(tail[3] == s@[k as int + 3]);
            assert(tail.skip(4) =~= s@.skip(k as int + 4));
        }
        let v0 = match b64_val_exec(s[k]) {
            Some(v) => v,
            None => {
                return None;
            },
        };
        let v1 = match b64_val_exec(s[k + 1]) {
            Some(v) => v,
            None => {
                return None;
            },
        };
        let v2 = match b64_val_exec(s[k + 2]) {
            Some(v) => v,
            None => {
                return None;
            },
        };
        let v3 = match b64_val_exec(s[k + 3]) {
            Some(v) => v,
            None => {
                return None;
            },
        };
        r.push(v0 * 4 + v1 / 16);
        r.push((v1 % 16) * 16 + v2 / 4);
        r.push((v2 % 4) * 64 + v3);
        proof {
            let group = seq![
                (v0 as int * 4 + v1 as int / 16) as u8,
                ((v1 as int % 16) * 16 + v2 as int / 4) as u8,
                ((v2 as int % 4) * 64 + v3 as int) as u8,
            ];
            assert(r@ =~= r_old + group);
            if b64_decode(s@.skip(k as int + 4)) is Some {
                let t = b64_decode(s@.skip(k as int + 4)).unwrap();
                assert(b64_decode(tail) == Some(group + t));
                assert(r_old + (group + t) =~= r@ + t);
            }
        }
        k += 4;
    }
    let rem = s.len() - k;
    if rem == 0 {
        proof {
            assert(s@.skip(k as int).len() == 0);
            assert(r@ + Seq::<u8>::empty() =~= r@);
        }
        Some(r)
    } else if rem == 1 {
        None
    } else if rem == 2 {
        let ghost tail = s@.skip(k as int);
        proof {
            assert(tail.len() == 2);
            assert(tail[0] == s@[k as int]);
            assert(tail[1] == s@[k as int + 1]);
        }
        let v0 = match b64_val_exec(s[k]) {
            Some(v) => v,
            None => {
                return None;
            },
        };
        let v1 = match b64_val_exec(s[k + 1]) {
            Some(v) => v,
            None => {
                return None;
            },
        };
        if v1 % 16 != 0 {
            return None;
        }
        let ghost r_old = r@;
        r.push(v0 * 4 + v1 / 16);
        proof {
            assert(b64_decode(tail) == Some(seq![(v0 as int * 4 + v1 as int / 16) as u8]));
            assert(r@ =~= r_old + seq![(v0 as int * 4 + v1 as int / 16) as u8]);
        }
        Some(r)
    } else {
        let ghost tail = s@.skip(k as int);
        proof {
            assert(tail.len() == 3);
            assert(tail[0] == s@[k as int]);
            assert(tail[1] == s@[k as int + 1]);
            assert(tail[2] == s@[k as int + 2]);
        }
        let v0 = match b64_val_exec(s[k]) {
            Some(v) => v,
            None => {
                return None;
            },
        };
        let v1 = match b64_val_exec(s[k + 1]) {
            Some(v) => v,
            None => {
                return None;
            },
        };
        let v2 = match b64_val_exec(s[k + 2]) {
            Some(v) => v,
            None => {
                return None;
            },
        };
        if v2 % 4 != 0 {
            return None;
        }
        let ghost r_old = r@;
        r.push(v0 * 4 + v1 / 16);
        r.push((v1 % 16) * 16 + v2 / 4);
        proof {
            let group = seq![
                (v0 as int * 4 + v1 as int / 16) as u8,
                ((v1 as int % 16) * 16 + v2 as int / 4) as u8,
            ];
            assert(b64_decode(tail) == Some(group));
            assert(r@ =~= r_old + group);
        }
        Some(r)
    }
}

} // verus!
