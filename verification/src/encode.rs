use crate::canon::FatalError;
use crate::strutil::push_char;
use vstd::prelude::*;
use vstd::string::*;

verus! {

/// The character of one decimal digit.
pub open spec fn digit_char(d: nat) -> char {
    if d == 0 {
        '0'
    } else if d == 1 {
        '1'
    } else if d == 2 {
        '2'
    } else if d == 3 {
        '3'
    } else if d == 4 {
        '4'
    } else if d == 5 {
        '5'
    } else if d == 6 {
        '6'
    } else if d == 7 {
        '7'
    } else if d == 8 {
        '8'
    } else {
        '9'
    }
}

/// The decimal digits of `n`, most significant first, without leading
/// zeroes (`0` itself is the single digit `0`).
pub open spec fn dec_digits(n: nat) -> Seq<char>
    decreases n,
{
    if n < 10 {
        seq![digit_char(n)]
    } else {
        dec_digits(n / 10) + seq![digit_char(n % 10)]
    }
}

/// The sequence read back to front.
pub open spec fn revseq(s: Seq<char>) -> Seq<char> {
    Seq::new(s.len(), |k: int| s[s.len() - 1 - k])
}

fn digit_char_exec(d: u64) -> (c: char)
    requires
        d < 10,
    ensures
        c == digit_char(d as nat),
{
    if d == 0 {
        '0'
    } else if d == 1 {
        '1'
    } else if d == 2 {
        '2'
    } else if d == 3 {
        '3'
    } else if d == 4 {
        '4'
    } else if d == 5 {
        '5'
    } else if d == 6 {
        '6'
    } else if d == 7 {
        '7'
    } else if d == 8 {
        '8'
    } else {
        '9'
    }
}

/// Formats `n` in decimal.
#[verifier::loop_isolation(false)]
pub fn u64_to_string(n: u64) -> (s: String)
    ensures
        s@ == dec_digits(n as nat),
{
    let mut digits: Vec<char> = Vec::new();
    digits.push(digit_char_exec(n % 10));
    let mut m: u64 = n / 10;
    proof {
        assert(revseq(digits@) =~= seq![digit_char((n % 10) as nat)]);
        if n < 10 {
            assert(dec_digits(n as nat) =~= Seq::<char>::empty() + revseq(digits@));
        } else {
            assert(dec_digits(n as nat) =~= dec_digits(m as nat) + revseq(digits@));
        }
    }
    while m > 0
        invariant
            dec_digits(n as nat) =~= (if m > 0 {
                dec_digits(m as nat)
            } else {
                Seq::<char>::empty()
            }) + revseq(digits@),
        decreases m,
    {
        let ghost before = digits@;
        let d = m % 10;
        digits.push(digit_char_exec(d));
        m = m / 10;
        proof {
            assert(revseq(digits@) =~= seq![digit_char(d as nat)] + revseq(before));
            if m > 0 {
                assert(dec_digits(n as nat) =~= dec_digits(m as nat) + revseq(digits@));
            } else {
                assert(dec_digits(n as nat) =~= Seq::<char>::empty() + revseq(digits@));
            }
        }
    }
    let mut s = String::new();
    let mut k: usize = 0;
    while k < digits.len()
        invariant
            k <= digits@.len(),
            s@ =~= revseq(digits@).take(k as int),
        decreases digits.len() - k,
    {
        let c = digits[digits.len() - 1 - k];
        push_char(&mut s, c);
        k = k + 1;
        proof {
            assert(s@ =~= revseq(digits@).take(k as int));
        }
    }
    proof {
        assert(revseq(digits@).take(k as int) =~= revseq(digits@));
        assert(dec_digits(n as nat) =~= Seq::<char>::empty() + revseq(digits@));
    }
    s
}

/// The vector's labels in decimal, joined with commas.
pub open spec fn join_labels(v: Seq<u64>) -> Seq<char>
    decreases v.len(),
{
    if v.len() == 0 {
        Seq::empty()
    } else if v.len() == 1 {
        dec_digits(v[0] as nat)
    } else {
        join_labels(v.take(v.len() - 1)) + (",")@ + dec_digits(v.last() as nat)
    }
}

/// One line of text-mode output: the 1-based sample number and the dense
/// assignment vector in flat-index order.
pub open spec fn text_record(sample: nat, v: Seq<u64>) -> Seq<char> {
    ("{\"sample\":")@ + dec_digits(sample) + (",\"assignment\":[")@ + join_labels(v) + ("]}")@
}

/// Serializes one sample as a text-mode record.
#[verifier::loop_isolation(false)]
pub fn encode_text_record(sample: u64, v: &Vec<u64>) -> (s: String)
    ensures
        s@ == text_record(sample as nat, v@),
{
    let mut s = String::from_str("{\"sample\":");
    let num = u64_to_string(sample);
    s.append(num.as_str());
    s.append(",\"assignment\":[");
    proof {
        assert(join_labels(v@.take(0)) =~= Seq::<char>::empty());
        assert(s@ =~= ("{\"sample\":")@ + dec_digits(sample as nat) + (",\"assignment\":[")@
            + join_labels(v@.take(0)));
    }
    let mut i: usize = 0;
    while i < v.len()
        invariant
            i <= v@.len(),
            s@ =~= ("{\"sample\":")@ + dec_digits(sample as nat) + (",\"assignment\":[")@
                + join_labels(v@.take(i as int)),
        decreases v.len() - i,
    {
        if i > 0 {
            s.append(",");
        }
        let d = u64_to_string(v[i]);
        s.append(d.as_str());
        proof {
            assert(v@.take(i + 1).take(i as int) =~= v@.take(i as int));
            assert(v@.take(i + 1).last() == v@[i as int]);
            if i == 0 {
                assert(join_labels(v@.take(1)) == dec_digits(v@[0] as nat));
            } else {
                assert(join_labels(v@.take(i + 1)) == join_labels(v@.take(i as int)) + (",")@
                    + dec_digits(v@[i as int] as nat));
            }
            assert(s@ =~= ("{\"sample\":")@ + dec_digits(sample as nat) + (",\"assignment\":[")@
                + join_labels(v@.take(i + 1)));
        }
        i = i + 1;
    }
    proof {
        assert(v@.take(i as int) =~= v@);
    }
    s.append("]}");
    proof {
        assert(s@ =~= text_record(sample as nat, v@));
    }
    s
}

/// A label as two bytes, big-endian; meaningful for labels below 2^16.
pub open spec fn be16(x: u64) -> Seq<u8> {
    seq![(x / 256) as u8, (x % 256) as u8]
}

/// One sample's binary block: each label as a fixed-width 16-bit word in
/// flat-index order, with no delimiter or length prefix.
pub open spec fn sample_block(v: Seq<u64>) -> Seq<u8>
    decreases v.len(),
{
    if v.len() == 0 {
        Seq::empty()
    } else {
        sample_block(v.take(v.len() - 1)) + be16(v.last())
    }
}

/// Whether every label fits the fixed 16-bit width.
pub open spec fn labels_fit(v: Seq<u64>) -> bool {
    forall|i: int| 0 <= i < v.len() ==> v[i] < 65536
}

/// The magic header that starts binary-mode output, the ASCII bytes of
/// `CANON16` and a newline.
pub open spec fn magic_bytes() -> Seq<u8> {
    seq![67u8, 65u8, 78u8, 79u8, 78u8, 49u8, 54u8, 10u8]
}

/// The magic header as a byte vector.
pub fn bin_magic() -> (r: Vec<u8>)
    ensures
        r@ == magic_bytes(),
{
    let mut r: Vec<u8> = Vec::new();
    r.push(67);
    r.push(65);
    r.push(78);
    r.push(79);
    r.push(78);
    r.push(49);
    r.push(54);
    r.push(10);
    proof {
        assert(r@ =~= magic_bytes());
    }
    r
}

/// Serializes one sample as a binary block, or reports the first label too
/// large for the fixed width; never truncates silently.
#[verifier::loop_isolation(false)]
pub fn encode_binary_sample(v: &Vec<u64>) -> (r: Result<Vec<u8>, FatalError>)
    ensures
        match r {
            Ok(b) => labels_fit(v@) && b@ == sample_block(v@),
            Err(e) => !labels_fit(v@) && e == FatalError::LabelTooLarge,
        },
{
    let mut c: usize = 0;
    while c < v.len()
        invariant
            c <= v@.len(),
            forall|i: int| 0 <= i < c ==> v@[i] < 65536,
        decreases v.len() - c,
    {
        if v[c] > 65535 {
            return Err(FatalError::LabelTooLarge);
        }
        c = c + 1;
    }
    let mut b: Vec<u8> = Vec::new();
    proof {
        assert(b@ =~= sample_block(v@.take(0)));
    }
    let mut i: usize = 0;
    while i < v.len()
        invariant
            i <= v@.len(),
            labels_fit(v@),
            b@ =~= sample_block(v@.take(i as int)),
        decreases v.len() - i,
    {
        let x = v[i];
        b.push((x / 256) as u8);
        b.push((x % 256) as u8);
        proof {
            assert(v@.take(i + 1).take(i as int) =~= v@.take(i as int));
            assert(v@.take(i + 1).last() == v@[i as int]);
            assert(b@ =~= sample_block(v@.take(i as int)) + be16(v@[i as int]));
            assert(b@ =~= sample_block(v@.take(i + 1)));
        }
        i = i + 1;
    }
    proof {
        assert(v@.take(i as int) =~= v@);
    }
    Ok(b)
}

} // verus!
